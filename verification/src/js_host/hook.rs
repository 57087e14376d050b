//! Running hooks: their files, the programs that call them, and the limits they
//! run under.
use std::sync::Arc;
use std::time::Instant;

use rquickjs::{Context, Runtime};
use vstd::prelude::*;
use vstd::string::StringSliceAdditionalSpecFns;

use super::fig::{is_named_item, is_spec_of, spec_from_fig_json};
use super::reply::{
    command_in, item_rows, parse_execute_input, requested, rows_in, script_command_from_json,
    suggestions_from_json, ParsedCommand, ScriptCommand,
};
use crate::filegen::expand::{join_base, path_joined};
use crate::ir::Spec;
use crate::json::{document, parse, Json, JsonView};
use crate::runtime::{rows, Suggestion};
use crate::sorted::pair_texts;
use crate::text::{
    begins_with, chars_of, concat, join, joined, opt_str, opt_text, replace, replaced_from,
    same, starts_with, text_range, texts, trim, trimmed,
};

verus! {

/// What hooks are told of the shell.
#[derive(Debug, Default)]
pub struct ShellContext {
    pub current_process: String,
    pub environment_variables: Arc<Vec<(String, String)>>,
}

// ---------------------------------------------------------------------------
// Files and keys
// ---------------------------------------------------------------------------
/// A character that can stand in the name of a hook's file; others become `_`.
pub open spec fn file_char(c: char) -> char {
    if ('a' <= c && c <= 'z') || ('A' <= c && c <= 'Z') || ('0' <= c && c <= '9') || c == '.' || c
        == '-' || c == '_' {
        c
    } else {
        '_'
    }
}

/// The name of a hook's file.
pub open spec fn hook_file(id: Seq<char>) -> Seq<char> {
    Seq::new(id.len(), |i: int| file_char(id[i])) + ".js"@
}

/// The path of a hook's file.
pub fn hook_path(dir: &str, id: &str) -> (path: String)
    ensures
        path@ == path_joined(dir@, hook_file(id@)),
{
    let s = chars_of(id);
    let ghost stated = Seq::new(id@.len(), |i: int| file_char(id@[i]));
    let mut safe = String::new();
    let mut i: usize = 0;
    proof {
        assert(safe@ =~= stated.take(0));
    }
    while i < s.len()
        invariant
            i <= s@.len(),
            s@ == id@,
            stated == Seq::new(id@.len(), |i: int| file_char(id@[i])),
            safe@ == stated.take(i as int),
        decreases s@.len() - i,
    {
        let c = s[i];
        let kept = if ('a' <= c && c <= 'z') || ('A' <= c && c <= 'Z') || ('0' <= c && c <= '9')
            || c == '.' || c == '-' || c == '_' {
            c
        } else {
            '_'
        };
        safe.push(kept);
        i += 1;
        proof {
            assert(stated.take(i as int) =~= stated.take(i - 1).push(kept));
        }
    }
    proof {
        assert(stated.take(stated.len() as int) =~= stated);
    }
    let file = concat(&safe, ".js");
    join_base(dir, &file)
}

/// The key under which a hook's result is kept: the directory where it counts,
/// and the given key or the words of the command.
pub open spec fn result_key(
    by_directory: bool,
    cwd: Seq<char>,
    key: Option<Seq<char>>,
    tokens: Seq<Seq<char>>,
) -> Seq<char> {
    let second = match key {
        Some(key) => key,
        None => joined(tokens, " "@),
    };
    if by_directory {
        cwd + ","@ + second
    } else {
        ","@ + second
    }
}

/// Computes [`result_key`].
pub fn cache_key(cache_by_directory: bool, cwd: &str, key: Option<&str>, tokens: &[String]) -> (
whole: String)
    ensures
        whole@ == result_key(cache_by_directory, cwd@, opt_str(key), texts(tokens@)),
{
    let second = match key {
        Some(key) => key.to_owned(),
        None => join(tokens, " "),
    };
    if cache_by_directory {
        concat(&concat(cwd, ","), &second)
    } else {
        concat(",", &second)
    }
}

// ---------------------------------------------------------------------------
// Output of commands
// ---------------------------------------------------------------------------
/// Where the text behind leading newlines begins.
pub open spec fn behind_newlines(s: Seq<char>, i: int) -> int
    decreases s.len() - i,
{
    if 0 <= i < s.len() && s[i] == '\n' {
        behind_newlines(s, i + 1)
    } else {
        i
    }
}

/// Where the text before trailing newlines ends.
pub open spec fn before_newlines(s: Seq<char>, from: int, to: int) -> int
    decreases to - from,
{
    if from < to && s[to - 1] == '\n' {
        before_newlines(s, from, to - 1)
    } else {
        to
    }
}

/// A text without the newlines around it.
pub open spec fn without_newlines(s: Seq<char>) -> Seq<char> {
    let from = behind_newlines(s, 0);
    s.subrange(from, before_newlines(s, from, s.len() as int))
}

/// The output of a command as hooks see it: without carriage returns at line
/// ends, without the code that shows the cursor, and without newlines around.
pub open spec fn cleaned(output: Seq<char>) -> Seq<char> {
    without_newlines(
        replaced_from(
            replaced_from(output, "\r\n"@, "\n"@, 0),
            "\u{1b}[?25h"@,
            Seq::empty(),
            0,
        ),
    )
}

/// Computes [`cleaned`].
pub fn clean_output(output: &str) -> (clean: String)
    ensures
        clean@ == cleaned(output@),
{
    proof {
        reveal_strlit("\r\n");
        reveal_strlit("\u{1b}[?25h");
        reveal_strlit("");
        assert(""@ =~= Seq::<char>::empty());
    }
    let unix = replace(output, "\r\n", "\n");
    let plain = replace(&unix, "\u{1b}[?25h", "");
    let s = chars_of(&plain);
    let n = s.len();
    let mut from: usize = 0;
    while from < n && s[from] == '\n'
        invariant
            from <= n,
            n == s@.len(),
            behind_newlines(s@, 0) == behind_newlines(s@, from as int),
        decreases n - from,
    {
        from += 1;
    }
    let mut to: usize = n;
    while to > from && s[to - 1] == '\n'
        invariant
            from <= to <= n,
            n == s@.len(),
            before_newlines(s@, from as int, n as int) == before_newlines(
                s@,
                from as int,
                to as int,
            ),
        decreases to,
    {
        to -= 1;
    }
    text_range(&s, from, to)
}

// ---------------------------------------------------------------------------
// Programs
// ---------------------------------------------------------------------------
/// Where the text before trailing semicolons ends.
pub open spec fn before_semicolons(s: Seq<char>, to: int) -> int
    decreases to,
{
    if 0 < to <= s.len() && s[to - 1] == ';' {
        before_semicolons(s, to - 1)
    } else {
        to
    }
}

/// The function in the source of a hook: without the words that export it and
/// without semicolons behind it.
pub open spec fn hook_body(source: Seq<char>) -> Seq<char> {
    let whole = trimmed(source);
    let inner = trimmed(
        if begins_with(whole, "export default"@) {
            whole.skip(14)
        } else {
            whole
        },
    );
    trimmed(inner.take(before_semicolons(inner, inner.len() as int)))
}

/// Computes [`hook_body`].
pub fn hook_function(source: &str) -> (body: String)
    ensures
        body@ == hook_body(source@),
{
    let whole = trim(source);
    proof {
        reveal_strlit("export default");
    }
    let inner = if starts_with(&whole, "export default") {
        let s = chars_of(&whole);
        let rest = text_range(&s, 14, s.len());
        proof {
            assert(rest@ =~= whole@.skip(14));
        }
        trim(&rest)
    } else {
        trim(&whole)
    };
    let s = chars_of(&inner);
    let n = s.len();
    let mut to: usize = n;
    while to > 0 && s[to - 1] == ';'
        invariant
            to <= n,
            n == s@.len(),
            before_semicolons(s@, n as int) == before_semicolons(s@, to as int),
        decreases to,
    {
        to -= 1;
    }
    let body = text_range(&s, 0, to);
    proof {
        assert(body@ =~= s@.take(to as int));
    }
    trim(&body)
}

/// A hexadecimal digit.
pub open spec fn hex_digit(n: int) -> char {
    if 0 <= n < 10 {
        (n + 48) as u8 as char
    } else {
        (n + 87) as u8 as char
    }
}

/// A character as it is written in a JavaScript text.
pub open spec fn escaped(c: char) -> Seq<char> {
    let n = c as u32;
    if c == '"' || c == '\\' {
        seq!['\\', c]
    } else if n < 0x20 {
        seq!['\\', 'u', '0', '0', hex_digit(n as int / 16), hex_digit(n as int % 16)]
    } else if n == 0x2028 {
        "\\u2028"@
    } else if n == 0x2029 {
        "\\u2029"@
    } else {
        seq![c]
    }
}

/// The characters of a text as they are written in a JavaScript text.
pub open spec fn escaped_text(s: Seq<char>) -> Seq<char>
    decreases s.len(),
{
    if s.len() == 0 {
        Seq::empty()
    } else {
        escaped_text(s.drop_last()) + escaped(s.last())
    }
}

/// A text as a JavaScript literal.
pub open spec fn text_literal(s: Seq<char>) -> Seq<char> {
    "\""@ + escaped_text(s) + "\""@
}

fn hex_char(n: u32) -> (c: char)
    requires
        n < 16,
    ensures
        c == hex_digit(n as int),
{
    if n < 10 {
        (n + 48) as u8 as char
    } else {
        (n + 87) as u8 as char
    }
}

/// Computes [`text_literal`].
pub fn quote_text(text: &str) -> (literal: String)
    ensures
        literal@ == text_literal(text@),
{
    let s = chars_of(text);
    let mut inner = String::new();
    let mut i: usize = 0;
    proof {
        assert(s@.take(0) =~= Seq::<char>::empty());
        assert(inner@ =~= Seq::<char>::empty());
    }
    while i < s.len()
        invariant
            i <= s@.len(),
            inner@ == escaped_text(s@.take(i as int)),
        decreases s@.len() - i,
    {
        proof {
            assert(s@.take(i + 1).drop_last() =~= s@.take(i as int));
        }
        let ghost had = inner@;
        let c = s[i];
        let n: u32 = c as u32;
        if c == '"' || c == '\\' {
            inner.push('\\');
            inner.push(c);
            proof {
                assert(inner@ =~= had + escaped(c));
            }
        } else if n < 0x20 {
            inner.push('\\');
            inner.push('u');
            inner.push('0');
            inner.push('0');
            inner.push(hex_char(n / 16));
            inner.push(hex_char(n % 16));
            proof {
                assert(inner@ =~= had + escaped(c));
            }
        } else if n == 0x2028 {
            inner.push_str("\\u2028");
        } else if n == 0x2029 {
            inner.push_str("\\u2029");
        } else {
            inner.push(c);
            proof {
                assert(inner@ =~= had + escaped(c));
            }
        }
        i += 1;
    }
    proof {
        assert(s@.take(s@.len() as int) =~= s@);
    }
    concat(&concat("\"", &inner), "\"")
}

/// The literals of texts.
pub open spec fn text_literals(list: Seq<Seq<char>>) -> Seq<Seq<char>> {
    Seq::new(list.len(), |i: int| text_literal(list[i]))
}

/// A list of texts as a JavaScript literal.
pub open spec fn list_literal(list: Seq<Seq<char>>) -> Seq<char> {
    "["@ + joined(text_literals(list), ", "@) + "]"@
}

/// Computes [`list_literal`].
pub fn quote_texts(list: &[String]) -> (literal: String)
    ensures
        literal@ == list_literal(texts(list@)),
{
    let ghost stated = text_literals(texts(list@));
    let mut parts: Vec<String> = Vec::new();
    let mut i: usize = 0;
    proof {
        assert(texts(parts@) =~= stated.take(0));
    }
    while i < list.len()
        invariant
            i <= list@.len(),
            stated == text_literals(texts(list@)),
            texts(parts@) == stated.take(i as int),
        decreases list@.len() - i,
    {
        let ghost had = parts@;
        let part = quote_text(&list[i]);
        let ghost view = part@;
        parts.push(part);
        i += 1;
        proof {
            assert(texts(parts@) =~= texts(had).push(view));
            assert(stated.take(i as int) =~= stated.take(i - 1).push(view));
        }
    }
    proof {
        assert(stated.take(stated.len() as int) =~= stated);
    }
    concat(&concat("[", &join(&parts, ", ")), "]")
}

/// The literals of pairs of texts.
pub open spec fn pair_literals(list: Seq<(Seq<char>, Seq<char>)>) -> Seq<Seq<char>> {
    Seq::new(list.len(), |i: int| list_literal(seq![list[i].0, list[i].1]))
}

/// A JavaScript expression for an object with a member for each pair.
pub open spec fn object_literal(list: Seq<(Seq<char>, Seq<char>)>) -> Seq<char> {
    "Object.fromEntries(["@ + joined(pair_literals(list), ", "@) + "])"@
}

/// Computes [`object_literal`].
pub fn quote_pairs(list: &[(String, String)]) -> (literal: String)
    ensures
        literal@ == object_literal(pair_texts(list@)),
{
    let ghost stated = pair_literals(pair_texts(list@));
    let mut parts: Vec<String> = Vec::new();
    let mut i: usize = 0;
    proof {
        assert(texts(parts@) =~= stated.take(0));
    }
    while i < list.len()
        invariant
            i <= list@.len(),
            stated == pair_literals(pair_texts(list@)),
            texts(parts@) == stated.take(i as int),
        decreases list@.len() - i,
    {
        let ghost had = parts@;
        let part = quote_texts(&pair(list[i].0.clone(), list[i].1.clone()));
        let ghost view = part@;
        parts.push(part);
        proof {
            assert(view == stated[i as int]);
        }
        i += 1;
        proof {
            assert(texts(parts@) =~= texts(had).push(view));
            assert(stated.take(i as int) =~= stated.take(i - 1).push(view));
        }
    }
    proof {
        assert(stated.take(stated.len() as int) =~= stated);
    }
    concat(&concat("Object.fromEntries([", &join(&parts, ", ")), "])")
}

/// What a hook that computes rows is told, as a JavaScript expression.
pub open spec fn context_literal(
    cwd: Seq<char>,
    shell: ShellContext,
    search_term: Seq<char>,
    is_dangerous: bool,
) -> Seq<char> {
    "({ currentWorkingDirectory: "@ + text_literal(cwd) + ", currentProcess: "@ + text_literal(
        shell.current_process@,
    ) + ", sshPrefix: \"\", searchTerm: "@ + text_literal(search_term) + (if is_dangerous {
        ", isDangerous: true, environmentVariables: "@
    } else {
        ", isDangerous: false, environmentVariables: "@
    }) + object_literal(pair_texts(shell.environment_variables@)) + " })"@
}

/// Computes [`context_literal`].
pub fn quote_context(cwd: &str, shell: &ShellContext, search_term: &str, is_dangerous: bool) -> (
    literal: String)
    ensures
        literal@ == context_literal(cwd@, *shell, search_term@, is_dangerous),
{
    let mut literal = concat("({ currentWorkingDirectory: ", &quote_text(cwd));
    literal.push_str(", currentProcess: ");
    literal.push_str(&quote_text(&shell.current_process));
    literal.push_str(", sshPrefix: \"\", searchTerm: ");
    literal.push_str(&quote_text(search_term));
    if is_dangerous {
        literal.push_str(", isDangerous: true, environmentVariables: ");
    } else {
        literal.push_str(", isDangerous: false, environmentVariables: ");
    }
    literal.push_str(&quote_pairs(shell.environment_variables.as_slice()));
    literal.push_str(" })");
    literal
}

/// The program that calls a hook on literals. It says whether the result is
/// there at once or still to come; what it comes to is kept as JSON, for
/// [`READ_PROGRAM`].
pub open spec fn hook_program(source: Seq<char>, arguments: Seq<Seq<char>>) -> Seq<char> {
    PROGRAM_HEAD@ + hook_body(source) + PROGRAM_CALL@ + joined(arguments, ", "@) + PROGRAM_TAIL@
}

/// What stands before the function.
pub const PROGRAM_HEAD: &'static str = "globalThis.__hook = (";

/// What stands between the function and the arguments.
pub const PROGRAM_CALL: &'static str = ");\n(function () {\nvar box = { text: null };\nglobalThis.__box = box;\nfunction keep(value) { box.text = JSON.stringify(value === undefined ? null : value); }\nvar value = (0, globalThis.__hook)(";

/// What stands behind the arguments.
pub const PROGRAM_TAIL: &'static str = ");\nif (value !== null && (typeof value === 'object' || typeof value === 'function') && typeof value.then === 'function') {\nPromise.resolve(value).then(keep, function () {});\nreturn 'pending';\n}\nkeep(value);\nreturn 'settled';\n})()";

/// What a program says whose result is there at once.
pub const SETTLED: &'static str = "settled";

/// The program that reads the result of the last hook; it fails where there is
/// none.
pub const READ_PROGRAM: &'static str = "globalThis.__box.text";

/// The program that gives hooks a console, which prints nothing.
pub const CONSOLE_PROGRAM: &'static str = "globalThis.console = { log() {}, warn() {}, error() {}, info() {}, debug() {} };\n''";

/// Computes [`hook_program`].
pub fn program_for(source: &str, arguments: &[String]) -> (program: String)
    ensures
        program@ == hook_program(source@, texts(arguments@)),
{
    let mut program = PROGRAM_HEAD.to_owned();
    program.push_str(&hook_function(source));
    program.push_str(PROGRAM_CALL);
    program.push_str(&join(arguments, ", "));
    program.push_str(PROGRAM_TAIL);
    program
}

// ---------------------------------------------------------------------------
// Limits
// ---------------------------------------------------------------------------
/// The memory of the interpreter, in bytes.
pub const MEMORY_LIMIT: usize = 16777216;

/// The stack of the interpreter, in bytes.
pub const STACK_LIMIT: usize = 524288;

/// The time that a hook has beyond its limit to shape its result, in
/// milliseconds.
pub const HOOK_MARGIN_MS: u64 = 2000;

/// The time after which a hook is stopped: its limit and the margin.
pub open spec fn hook_limit(budget_ms: u64) -> int {
    if budget_ms + HOOK_MARGIN_MS <= u64::MAX {
        budget_ms + HOOK_MARGIN_MS
    } else {
        u64::MAX as int
    }
}

/// Computes [`hook_limit`].
pub fn hook_deadline_ms(budget_ms: u64) -> (limit: u64)
    ensures
        limit == hook_limit(budget_ms),
{
    if budget_ms <= u64::MAX - HOOK_MARGIN_MS {
        budget_ms + HOOK_MARGIN_MS
    } else {
        u64::MAX
    }
}

/// The limit of a hook whose call has none of its own: the setting, but not
/// less than the default.
pub open spec fn default_budget(configured_ms: i64) -> int {
    if configured_ms >= 5000 {
        configured_ms as int
    } else {
        5000
    }
}

/// Computes [`default_budget`].
pub fn default_hook_budget(configured_ms: i64) -> (budget: u64)
    ensures
        budget == default_budget(configured_ms),
{
    if configured_ms >= 5000 {
        configured_ms as u64
    } else {
        5000
    }
}

/// The limit of a command that a running hook starts: its own, but no longer
/// than the hook has left. None is left where the hook is over.
pub open spec fn command_limit(timeout_ms: u64, remaining_ms: Option<u64>) -> Option<u64> {
    match remaining_ms {
        None => Some(timeout_ms),
        Some(left) => if left == 0 {
            None
        } else if left < timeout_ms {
            Some(left)
        } else {
            Some(timeout_ms)
        },
    }
}

/// Computes [`command_limit`].
pub fn exec_timeout_ms(timeout_ms: u64, remaining_ms: Option<u64>) -> (limit: Option<u64>)
    ensures
        limit == command_limit(timeout_ms, remaining_ms),
{
    match remaining_ms {
        None => Some(timeout_ms),
        Some(left) => if left == 0 {
            None
        } else if left < timeout_ms {
            Some(left)
        } else {
            Some(timeout_ms)
        },
    }
}

/// Whether a hook has used up its time.
pub fn is_over(elapsed_ms: u128, limit_ms: u64) -> (over: bool)
    ensures
        over == (elapsed_ms > limit_ms),
{
    elapsed_ms > limit_ms as u128
}

// ---------------------------------------------------------------------------
// Calls
// ---------------------------------------------------------------------------
/// A QuickJS runtime: its memory, and the jobs that wait to be run.
#[verifier::external_type_specification]
#[verifier::external_body]
pub struct ExRuntime(rquickjs::Runtime);

/// A QuickJS context: the global object that programs see.
#[verifier::external_type_specification]
#[verifier::external_body]
pub struct ExContext(rquickjs::Context);

/// Calls `Runtime::new`, `Runtime::set_memory_limit` and
/// `Runtime::set_max_stack_size`. Nothing is promised: whether there is memory
/// for a runtime depends on the machine.
#[verifier::external_body]
fn open_runtime(memory: usize, stack: usize) -> Option<Runtime> {
    let runtime = Runtime::new().ok()?;
    runtime.set_memory_limit(memory);
    runtime.set_max_stack_size(stack);
    Some(runtime)
}

/// Calls `Context::full`. Nothing is promised: whether there is memory for a
/// context depends on the machine.
#[verifier::external_body]
fn open_context(runtime: &Runtime) -> Option<Context> {
    Context::full(runtime).ok()
}

/// Calls `Runtime::set_interrupt_handler`: with [`is_over`] on the time since
/// now where there is a limit, else without a handler. The runtime asks the
/// handler every so many steps of a program's code, and starts counting anew
/// after it has stopped one: a handler can stop a single `eval_text` or
/// `run_job`, but does not bound their number. Nothing is promised of how long
/// one of them takes: built-in functions do not ask the handler.
#[verifier::external_body]
fn set_limit(runtime: &Runtime, limit_ms: Option<u64>) {
    let start = Instant::now();
    match limit_ms {
        Some(limit_ms) => runtime.set_interrupt_handler(
            Some(Box::new(move || is_over(start.elapsed().as_millis(), limit_ms))),
        ),
        None => runtime.set_interrupt_handler(None),
    }
}

/// Calls `Ctx::eval` for a text. No job is run. Nothing is promised of the
/// result: a program can read the clock, random numbers and what earlier
/// programs left in the context.
#[verifier::external_body]
fn eval_text(context: &Context, program: &str) -> Option<String> {
    context.with(|ctx| ctx.eval::<String, _>(program).ok())
}

/// What became of one job.
#[derive(Debug, Clone, Copy, PartialEq, Eq, Structural)]
pub enum Job {
    /// A job was run.
    Ran,
    /// No job was waiting.
    Idle,
    /// A job was run and failed, or was stopped.
    Failed,
}

/// Calls `Runtime::execute_pending_job`, which runs at most one job. Nothing is
/// promised of the outcome, which is the program's.
#[verifier::external_body]
fn run_job(runtime: &Runtime) -> Job {
    match runtime.execute_pending_job() {
        Ok(true) => Job::Ran,
        Ok(false) => Job::Idle,
        Err(_) => Job::Failed,
    }
}

/// The number of jobs that are run for one hook at most. A hook that keeps
/// scheduling jobs is given up on.
pub const MAX_JOBS: usize = 10_000;

/// What to do after a program was started, or after one of its jobs.
#[derive(Debug, Clone, Copy, PartialEq, Eq, Structural)]
pub enum AfterJob {
    /// Run the next job.
    Next,
    /// Read the result.
    Read,
    /// There is no result.
    GiveUp,
}

/// What to do after a program has said what became of its hook: a program that
/// failed has no result, one that settled is read at once, and any other has
/// jobs to run.
pub open spec fn after_start(state: Option<Seq<char>>) -> AfterJob {
    match state {
        None => AfterJob::GiveUp,
        Some(state) => if state == SETTLED@ {
            AfterJob::Read
        } else {
            AfterJob::Next
        },
    }
}

/// Computes [`after_start`].
pub fn decide_after_start(state: Option<&str>) -> (next: AfterJob)
    ensures
        next == after_start(opt_str(state)),
{
    match state {
        None => AfterJob::GiveUp,
        Some(state) => if same(state, SETTLED) {
            AfterJob::Read
        } else {
            AfterJob::Next
        },
    }
}

/// What to do after the job with the given number, counted from one: a failed
/// job ends the hook, and the result is read once no job waits or enough were
/// run.
pub open spec fn after_job(job: Job, number: int) -> AfterJob {
    match job {
        Job::Failed => AfterJob::GiveUp,
        Job::Idle => AfterJob::Read,
        Job::Ran => if number < MAX_JOBS {
            AfterJob::Next
        } else {
            AfterJob::Read
        },
    }
}

/// Computes [`after_job`].
pub fn decide_after_job(job: Job, number: usize) -> (next: AfterJob)
    ensures
        next == after_job(job, number as int),
{
    match job {
        Job::Failed => AfterJob::GiveUp,
        Job::Idle => AfterJob::Read,
        Job::Ran => if number < MAX_JOBS {
            AfterJob::Next
        } else {
            AfterJob::Read
        },
    }
}

/// The number of the last job that is run, where the job with each number turns
/// out as given.
pub open spec fn last_job(outcomes: spec_fn(int) -> Job, number: int) -> int
    decreases MAX_JOBS - number,
{
    if after_job(outcomes(number), number) is Next {
        last_job(outcomes, number + 1)
    } else {
        number
    }
}

/// However its jobs turn out, a hook runs at most [`MAX_JOBS`] of them, and none
/// after one that failed or found nothing to do.
pub proof fn law_hooks_run_few_jobs(outcomes: spec_fn(int) -> Job, number: int)
    requires
        1 <= number <= MAX_JOBS,
    ensures
        number <= last_job(outcomes, number) <= MAX_JOBS,
        forall|i: int|
            number <= i < last_job(outcomes, number) ==> #[trigger] outcomes(i) == Job::Ran,
    decreases MAX_JOBS - number,
{
    if after_job(outcomes(number), number) is Next {
        law_hooks_run_few_jobs(outcomes, number + 1);
    }
}

/// A JavaScript interpreter. Hooks that run in the same one share its global
/// object.
pub struct Interpreter {
    pub runtime: Runtime,
    pub context: Context,
}

impl Interpreter {
    /// An interpreter with a console that prints nothing, within
    /// [`MEMORY_LIMIT`] and [`STACK_LIMIT`]; absent where the machine has no
    /// room for one.
    pub fn open() -> Option<Interpreter> {
        let runtime = match open_runtime(MEMORY_LIMIT, STACK_LIMIT) {
            Some(runtime) => runtime,
            None => {
                return None;
            },
        };
        let context = match open_context(&runtime) {
            Some(context) => context,
            None => {
                return None;
            },
        };
        match eval_text(&context, CONSOLE_PROGRAM) {
            Some(_) => Some(Interpreter { runtime, context }),
            None => None,
        }
    }

    /// Runs jobs as [`after_job`] says, and says whether the result may be read.
    fn finish(&self) -> bool {
        let mut number: usize = 1;
        loop
            invariant
                1 <= number <= MAX_JOBS,
            decreases MAX_JOBS - number,
        {
            match decide_after_job(run_job(&self.runtime), number) {
                AfterJob::Next => {
                    number += 1;
                },
                AfterJob::Read => {
                    return true;
                },
                AfterJob::GiveUp => {
                    return false;
                },
            }
        }
    }

    /// Starts a program and goes on as [`after_start`] says.
    fn evaluate(&self, program: &str) -> Option<String> {
        let state = eval_text(&self.context, program);
        let readable = match decide_after_start(as_slice(&state)) {
            AfterJob::Next => self.finish(),
            AfterJob::Read => true,
            AfterJob::GiveUp => false,
        };
        if readable {
            eval_text(&self.context, READ_PROGRAM)
        } else {
            None
        }
    }

    /// Runs a program made by [`program_for`] and gives the text that its result
    /// was kept as. The text is the program's alone. A result that is there at
    /// once runs no job; one still to come runs at most [`MAX_JOBS`].
    pub fn run(&self, program: &str, budget_ms: u64) -> Option<String> {
        set_limit(&self.runtime, Some(hook_deadline_ms(budget_ms)));
        let text = self.evaluate(program);
        set_limit(&self.runtime, None);
        text
    }
}

/// The value that a program's text spells; absent where the program failed.
pub open spec fn reply_value(text: Option<Seq<u8>>) -> Option<JsonView> {
    match text {
        Some(bytes) => document(bytes),
        None => None,
    }
}

/// The bytes of a text, where there is one.
pub open spec fn reply_bytes(text: Option<&str>) -> Option<Seq<u8>> {
    match text {
        Some(text) => Some(text.spec_bytes()),
        None => None,
    }
}

fn read_reply(text: Option<&str>) -> (value: Option<Json>)
    ensures
        match value {
            Some(value) => reply_value(reply_bytes(text)) == Some(value@),
            None => reply_value(reply_bytes(text)) is None,
        },
{
    match text {
        Some(text) => parse(text.as_bytes()),
        None => None,
    }
}

/// The rows in a hook's reply.
pub fn rows_from_reply(text: Option<&str>, is_dangerous: bool) -> (out: Option<Vec<Suggestion>>)
    ensures
        match (out, reply_value(reply_bytes(text))) {
            (Some(out), Some(value)) => rows_in(value, is_dangerous) == Some(rows(out@)),
            (None, Some(value)) => rows_in(value, is_dangerous) is None,
            (None, None) => true,
            (Some(_), None) => false,
        },
{
    match read_reply(text) {
        Some(value) => suggestions_from_json(&value, is_dangerous),
        None => None,
    }
}

/// The command in a hook's reply.
pub fn command_from_reply(text: Option<&str>) -> (command: Option<ScriptCommand>)
    ensures
        match (command, reply_value(reply_bytes(text))) {
            (Some(command), Some(value)) => command_in(value) == Some(command@),
            (None, Some(value)) => command_in(value) is None,
            (None, None) => true,
            (Some(_), None) => false,
        },
{
    match read_reply(text) {
        Some(value) => script_command_from_json(&value),
        None => None,
    }
}

/// The flag in a hook's reply.
pub fn flag_from_reply(text: Option<&str>) -> (answer: Option<bool>)
    ensures
        answer == (match reply_value(reply_bytes(text)) {
            Some(JsonView::Bool(answer)) => Some(answer),
            _ => None,
        }),
{
    match read_reply(text) {
        Some(Json::Bool(answer)) => Some(answer),
        _ => None,
    }
}

/// The text in a hook's reply.
pub fn text_from_reply(text: Option<&str>) -> (answer: Option<String>)
    ensures
        opt_text(answer) == (match reply_value(reply_bytes(text)) {
            Some(JsonView::Text(answer)) => Some(answer),
            _ => None,
        }),
{
    match read_reply(text) {
        Some(Json::Text(answer)) => Some(answer),
        _ => None,
    }
}

fn as_slice(text: &Option<String>) -> (slice: Option<&str>)
    ensures
        opt_str(slice) == opt_text(*text),
{
    match text {
        Some(text) => Some(text.as_str()),
        None => None,
    }
}

fn pair(first: String, second: String) -> (list: Vec<String>)
    ensures
        texts(list@) == seq![first@, second@],
{
    let mut list: Vec<String> = Vec::new();
    let ghost stated = seq![first@, second@];
    list.push(first);
    list.push(second);
    proof {
        assert(texts(list@) =~= stated);
    }
    list
}

fn single(first: String) -> (list: Vec<String>)
    ensures
        texts(list@) == seq![first@],
{
    let mut list: Vec<String> = Vec::new();
    let ghost stated = seq![first@];
    list.push(first);
    proof {
        assert(texts(list@) =~= stated);
    }
    list
}

/// The program that hands a hook the output of a command and the words typed so
/// far.
pub fn post_process_program(source: &str, stdout: &str, tokens: &[String]) -> (program: String)
    ensures
        program@ == hook_program(
            source@,
            seq![text_literal(stdout@), list_literal(texts(tokens@))],
        ),
{
    program_for(source, &pair(quote_text(stdout), quote_texts(tokens)))
}

/// The program that hands a hook the words typed so far.
pub fn script_program(source: &str, tokens: &[String]) -> (program: String)
    ensures
        program@ == hook_program(source@, seq![list_literal(texts(tokens@))]),
{
    program_for(source, &single(quote_texts(tokens)))
}

/// The program that hands a hook the search term and the one before it.
pub fn trigger_program(source: &str, search_term: &str, previous: &str) -> (program: String)
    ensures
        program@ == hook_program(source@, seq![text_literal(search_term@), text_literal(previous@)]),
{
    program_for(source, &pair(quote_text(search_term), quote_text(previous)))
}

/// The program that hands a hook the search term.
pub fn query_term_program(source: &str, search_term: &str) -> (program: String)
    ensures
        program@ == hook_program(source@, seq![text_literal(search_term@)]),
{
    program_for(source, &single(quote_text(search_term)))
}

/// The name under which hooks that run commands find the function for it.
pub const EXECUTE: &'static str = "globalThis.__execute";

/// The program that hands a hook the words typed so far, the function that runs
/// commands, and what it is told of the shell.
pub fn custom_program(
    source: &str,
    tokens: &[String],
    cwd: &str,
    shell: &ShellContext,
    search_term: &str,
    is_dangerous: bool,
) -> (program: String)
    ensures
        program@ == hook_program(
            source@,
            seq![
                list_literal(texts(tokens@)),
                EXECUTE@,
                context_literal(cwd@, *shell, search_term@, is_dangerous),
            ],
        ),
{
    let mut arguments = pair(quote_texts(tokens), EXECUTE.to_owned());
    let context = quote_context(cwd, shell, search_term, is_dangerous);
    let ghost had = texts(arguments@);
    let ghost last = context@;
    arguments.push(context);
    proof {
        assert(texts(arguments@) =~= had.push(last));
        assert(had.push(last) =~= seq![had[0], had[1], last]);
    }
    program_for(source, &arguments)
}

/// The program that hands a hook the words typed so far and the function that
/// runs commands.
pub fn generate_spec_program(source: &str, tokens: &[String]) -> (program: String)
    ensures
        program@ == hook_program(source@, seq![list_literal(texts(tokens@)), EXECUTE@]),
{
    program_for(source, &pair(quote_texts(tokens), EXECUTE.to_owned()))
}

/// The spec in a hook's reply.
pub fn spec_from_reply(text: Option<&str>) -> (spec: Option<Spec>)
    ensures
        match (spec, reply_value(reply_bytes(text))) {
            (Some(spec), Some(value)) => is_named_item(value) && is_spec_of(spec, value),
            (None, Some(value)) => !is_named_item(value),
            (None, None) => true,
            (Some(_), None) => false,
        },
{
    match read_reply(text) {
        Some(value) => spec_from_fig_json(&value),
        None => None,
    }
}

/// The command that a hook wants to run, from what it handed over as JSON. The
/// time limit of its own, in milliseconds, comes apart.
pub fn command_from_input(
    input: &str,
    default_cwd: &str,
    default_timeout_ms: u64,
    timeout: Option<u64>,
) -> (command: Option<ParsedCommand>)
    ensures
        match (command, document(input.spec_bytes())) {
            (Some(command), Some(value)) => requested(
                value,
                default_cwd@,
                default_timeout_ms,
                timeout,
            ) == Some(command@),
            (None, Some(value)) => requested(
                value,
                default_cwd@,
                default_timeout_ms,
                timeout,
            ) is None,
            (None, None) => true,
            (Some(_), None) => false,
        },
{
    match parse(input.as_bytes()) {
        Some(value) => parse_execute_input(&value, default_cwd, default_timeout_ms, timeout),
        None => None,
    }
}

/// Runs [`post_process_program`] and reads its reply with [`rows_from_reply`].
/// Whatever the hook returns, the rows are those of a list of items.
pub fn post_process(
    interpreter: &Interpreter,
    source: &str,
    stdout: &str,
    tokens: &[String],
    budget_ms: u64,
) -> (out: Option<Vec<Suggestion>>)
    ensures
        out matches Some(out) ==> exists|items: Seq<JsonView>|
            rows(out@) == #[trigger] item_rows(items, false),
{
    let text = interpreter.run(&post_process_program(source, stdout, tokens), budget_ms);
    let slice = as_slice(&text);
    let out = rows_from_reply(slice, false);
    proof {
        if let Some(JsonView::List(items)) = reply_value(reply_bytes(slice)) {
            assert(out is Some ==> rows(out->Some_0@) == item_rows(items, false));
        }
    }
    out
}

/// Runs [`script_program`] and reads its reply with [`command_from_reply`].
/// Whatever the hook returns, the command has a name.
pub fn script_command(
    interpreter: &Interpreter,
    source: &str,
    tokens: &[String],
    budget_ms: u64,
) -> (command: Option<ScriptCommand>)
    ensures
        command matches Some(command) ==> command.command@.len() > 0,
{
    let text = interpreter.run(&script_program(source, tokens), budget_ms);
    proof {
        reveal_strlit("sh");
    }
    command_from_reply(as_slice(&text))
}

/// Runs [`trigger_program`] and reads its reply with [`flag_from_reply`]. The
/// answer is the hook's alone.
pub fn trigger(
    interpreter: &Interpreter,
    source: &str,
    search_term: &str,
    previous: &str,
    budget_ms: u64,
) -> Option<bool> {
    let text = interpreter.run(&trigger_program(source, search_term, previous), budget_ms);
    flag_from_reply(as_slice(&text))
}

/// Runs [`query_term_program`] and reads its reply with [`text_from_reply`].
/// The term is the hook's alone.
pub fn query_term(
    interpreter: &Interpreter,
    source: &str,
    search_term: &str,
    budget_ms: u64,
) -> Option<String> {
    let text = interpreter.run(&query_term_program(source, search_term), budget_ms);
    text_from_reply(as_slice(&text))
}

} // verus!
