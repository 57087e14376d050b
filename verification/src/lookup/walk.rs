//! Following the words of a command line through its spec: which subcommand
//! they lead to, which options they pass, and which spec an argument loads.
//!
//! Specs of other commands, and specs that hooks compute, come from outside.
//! A walk takes the answers it has been given so far and stops with what it
//! needs next; walking again with one more answer goes further.
use std::sync::Arc;
use vstd::prelude::*;

use super::options::{
    arg_slot, gather_options, inherit_subcommand_directives, inherited, is_dashed,
    merge_parser_directives, merge_persistent_options, merged, options_in_force, options_in_token,
    own_directives, passed_by, persistent_in, positional_arg, resolve_option_token, resolved,
    root_directives, should_consume_option_value, takes_value, DirectivesView, ResolvedOptionToken,
};
use crate::ir::{find_named, spec_named, ArgSpec, OptionSpec, ParserDirectives, Spec};
use crate::json::or_empty;
use crate::text::{
    begins_with, chars_of, concat, copy_texts, join, joined, law_joined_parts_are_told_apart,
    opt_text, same, share, starts_with, text_range, texts,
};

verus! {

// ---------------------------------------------------------------------------
// Answers from outside
// ---------------------------------------------------------------------------
/// What a walk has been told so far.
pub struct SpecAnswers {
    /// Whether commands that arguments name are looked up at all.
    pub lookup: bool,
    /// Whether hooks that compute specs can run.
    pub hooks: bool,
    /// The specs of commands, by name; absent where there is none.
    pub specs: Vec<(String, Option<Arc<Spec>>)>,
    /// The specs that hooks computed, merged with the specs that asked for
    /// them, in the order of asking; absent where the hook failed.
    pub generated: Vec<Option<Arc<Spec>>>,
}

/// What a walk needs to go on.
pub enum Need {
    /// The spec of a command.
    Spec(String),
    /// What the hook of a spec computes.
    Generate(Arc<Spec>),
}

/// What a walk needs to go on.
pub enum NeedView {
    Spec(Seq<char>),
    Generate(Arc<Spec>),
}

impl View for Need {
    type V = NeedView;

    open spec fn view(&self) -> NeedView {
        match self {
            Need::Spec(name) => NeedView::Spec(name@),
            Need::Generate(spec) => NeedView::Generate(*spec),
        }
    }
}

/// The outcome of a part of a walk.
pub enum Walked<T> {
    Done(T),
    Needs(NeedView),
}

/// The answer about the spec of a command, where there is one.
pub open spec fn spec_answer(
    specs: Seq<(String, Option<Arc<Spec>>)>,
    name: Seq<char>,
    i: int,
) -> Option<Option<Arc<Spec>>>
    decreases specs.len() - i,
{
    if i < 0 || i >= specs.len() {
        None
    } else if specs[i].0@ == name {
        Some(specs[i].1)
    } else {
        spec_answer(specs, name, i + 1)
    }
}

/// Shares an optional spec.
fn share_option(spec: &Option<Arc<Spec>>) -> (shared: Option<Arc<Spec>>)
    ensures
        shared == *spec,
{
    match spec {
        Some(spec) => Some(share(spec)),
        None => None,
    }
}

impl SpecAnswers {
    /// The answer about the spec of a command, where there is one.
    pub fn answer(&self, name: &str) -> (found: Option<Option<Arc<Spec>>>)
        ensures
            found == spec_answer(self.specs@, name@, 0),
    {
        let mut i: usize = 0;
        while i < self.specs.len()
            invariant
                i <= self.specs@.len(),
                spec_answer(self.specs@, name@, 0) == spec_answer(self.specs@, name@, i as int),
            decreases self.specs@.len() - i,
        {
            if same(&self.specs[i].0, name) {
                return Some(share_option(&self.specs[i].1));
            }
            i += 1;
        }
        None
    }
}

// ---------------------------------------------------------------------------
// Specs that arguments load
// ---------------------------------------------------------------------------
/// Where the last part of a path begins: behind the last `/` or `\`.
pub open spec fn last_part_at(s: Seq<char>, i: int) -> int
    decreases i,
{
    if i <= 0 {
        0
    } else if s[i - 1] == '/' || s[i - 1] == '\\' {
        i
    } else {
        last_part_at(s, i - 1)
    }
}

/// Whether a word is written as a path.
pub open spec fn is_pathish(token: Seq<char>) -> bool {
    begins_with(token, "/"@) || begins_with(token, "./"@) || begins_with(token, "~/"@)
}

/// The command that a word names: the last part of a path, or of any word
/// where scripts are expected, unless that part is empty.
pub open spec fn command_name(token: Seq<char>, is_script: bool) -> Seq<char> {
    let at = last_part_at(token, token.len() as int);
    if (is_script || is_pathish(token)) && at < token.len() {
        token.skip(at)
    } else {
        token
    }
}

/// Computes [`command_name`].
pub fn command_lookup_name(token: &str, is_script: bool) -> (name: String)
    ensures
        name@ == command_name(token@, is_script),
{
    if !(is_script || starts_with(token, "/") || starts_with(token, "./") || starts_with(
        token,
        "~/",
    )) {
        return token.to_owned();
    }
    let s = chars_of(token);
    let n = s.len();
    let mut at: usize = n;
    while at > 0 && s[at - 1] != '/' && s[at - 1] != '\\'
        invariant
            at <= n,
            n == s@.len(),
            s@ == token@,
            last_part_at(s@, n as int) == last_part_at(s@, at as int),
        decreases at,
    {
        at -= 1;
    }
    if at < n {
        proof {
            assert(s@.skip(at as int) =~= s@.subrange(at as int, n as int));
        }
        text_range(&s, at, n)
    } else {
        token.to_owned()
    }
}

/// The name of the spec that a completed argument loads by its word.
pub open spec fn dynamic_name(arg: ArgSpec, token: Seq<char>) -> Option<Seq<char>> {
    match arg.is_module {
        Some(prefix) => if prefix@.len() == 0 {
            None
        } else {
            Some(prefix@ + token)
        },
        None => if arg.is_command || arg.is_script {
            Some(command_name(token, arg.is_script))
        } else {
            None
        },
    }
}

/// Computes [`dynamic_name`].
pub fn dynamic_spec_name(arg: &ArgSpec, token: &str) -> (name: Option<String>)
    ensures
        opt_text(name) == dynamic_name(*arg, token@),
{
    if let Some(prefix) = &arg.is_module {
        if prefix.as_str().is_empty() {
            return None;
        }
        return Some(concat(prefix, token));
    }
    if arg.is_command || arg.is_script {
        return Some(command_lookup_name(token, arg.is_script));
    }
    None
}

/// The spec that takes over behind a completed argument. A spec given with the
/// argument comes first; only without one does the word name a command.
pub open spec fn after_arg(
    answers: SpecAnswers,
    arg: ArgSpec,
    token: Seq<char>,
) -> Walked<Option<Arc<Spec>>> {
    if arg.load_spec is Some || arg.resolved_spec is Some {
        Walked::Done(arg.resolved_spec)
    } else {
        match dynamic_name(arg, token) {
            None => Walked::Done(None),
            Some(name) => if name.len() == 0 || name == "?"@ || !answers.lookup {
                Walked::Done(None)
            } else {
                match spec_answer(answers.specs@, name, 0) {
                    Some(answer) => Walked::Done(answer),
                    None => Walked::Needs(NeedView::Spec(name)),
                }
            },
        }
    }
}

/// Computes [`after_arg`].
pub fn next_spec_after_arg(answers: &SpecAnswers, arg: &ArgSpec, token: &str) -> (next: Result<
    Option<Arc<Spec>>,
    Need,
>)
    ensures
        match next {
            Ok(spec) => after_arg(*answers, *arg, token@) == Walked::Done(spec),
            Err(need) => after_arg(*answers, *arg, token@) == Walked::<Option<Arc<Spec>>>::Needs(
                need@,
            ),
        },
{
    if arg.load_spec.is_some() || arg.resolved_spec.is_some() {
        return Ok(share_option(&arg.resolved_spec));
    }
    let name = match dynamic_spec_name(arg, token) {
        None => {
            return Ok(None);
        },
        Some(name) => name,
    };
    if name.as_str().is_empty() || same(&name, "?") || !answers.lookup {
        return Ok(None);
    }
    match answers.answer(&name) {
        Some(answer) => Ok(answer),
        None => Err(Need::Spec(name)),
    }
}

/// A spec with what its hook computes, and how many hooks were asked by then.
pub open spec fn with_generated(answers: SpecAnswers, spec: Arc<Spec>, asked: int) -> Walked<
    (Arc<Spec>, int),
> {
    if spec.js_generate_spec is None || !answers.hooks {
        Walked::Done((spec, asked))
    } else if 0 <= asked < answers.generated@.len() {
        match answers.generated@[asked] {
            Some(whole) => Walked::Done((whole, asked + 1)),
            None => Walked::Done((spec, asked + 1)),
        }
    } else {
        Walked::Needs(NeedView::Generate(spec))
    }
}

/// Computes [`with_generated`].
pub fn apply_generate_spec(answers: &SpecAnswers, spec: Arc<Spec>, asked: usize) -> (out: Result<
    (Arc<Spec>, usize),
    Need,
>)
    requires
        asked <= answers.generated@.len(),
    ensures
        match out {
            Ok((whole, count)) => with_generated(*answers, spec, asked as int) == Walked::Done(
                (whole, count as int),
            ) && count <= answers.generated@.len(),
            Err(need) => with_generated(*answers, spec, asked as int) == Walked::<
                (Arc<Spec>, int),
            >::Needs(need@),
        },
{
    if spec.js_generate_spec.is_none() || !answers.hooks {
        return Ok((spec, asked));
    }
    if asked < answers.generated.len() {
        return match &answers.generated[asked] {
            Some(whole) => Ok((share(whole), asked + 1)),
            None => Ok((spec, asked + 1)),
        };
    }
    Err(Need::Generate(spec))
}

/// What tells two calls of spec hooks apart: the command, the hook, the
/// directory that it runs in, and the words that it is handed.
pub open spec fn hook_call(tokens: Seq<Seq<char>>, cwd: Seq<char>, spec: Spec) -> Seq<Seq<char>> {
    seq![command_of(tokens), or_empty(opt_text(spec.js_generate_spec)), cwd] + tokens
}

/// The command that is completed.
pub open spec fn command_of(tokens: Seq<Seq<char>>) -> Seq<char> {
    if tokens.len() > 0 {
        tokens[0]
    } else {
        Seq::empty()
    }
}

/// The name under which the result of a spec's hook is kept: the command and
/// the spec's own key; without such a key, the whole call.
pub open spec fn generate_key(tokens: Seq<Seq<char>>, cwd: Seq<char>, spec: Spec) -> Seq<char> {
    match spec.generate_spec_cache_key {
        Some(key) => command_of(tokens) + ":"@ + key@,
        None => joined(hook_call(tokens, cwd, spec), "\u{1f}"@),
    }
}

/// Computes [`generate_key`].
pub fn generate_spec_key(tokens: &[String], cwd: &str, spec: &Spec) -> (name: String)
    ensures
        name@ == generate_key(texts(tokens@), cwd@, *spec),
{
    let command = if tokens.len() > 0 {
        tokens[0].clone()
    } else {
        String::new()
    };
    proof {
        assert(command@ =~= command_of(texts(tokens@)));
    }
    if let Some(key) = &spec.generate_spec_cache_key {
        return concat(&concat(&command, ":"), key);
    }
    let hook = match &spec.js_generate_spec {
        Some(hook) => hook.clone(),
        None => String::new(),
    };
    proof {
        assert(hook@ =~= or_empty(opt_text(spec.js_generate_spec)));
    }
    let ghost head = seq![command@, hook@, cwd@];
    let mut parts: Vec<String> = Vec::new();
    parts.push(command);
    parts.push(hook);
    parts.push(cwd.to_owned());
    let mut words = copy_texts(tokens);
    let ghost rest = words@;
    proof {
        assert(texts(parts@) =~= head);
    }
    let ghost first = parts@;
    parts.append(&mut words);
    proof {
        assert(texts(parts@) =~= texts(first) + texts(rest));
    }
    join(&parts, "\u{1f}")
}

/// Without a key of their own, the results of two hook calls are kept under the
/// same name only where the calls are the same: the same hook, directory and
/// words. The one exception are texts that hold a unit separator.
pub proof fn law_hook_calls_are_kept_apart(
    tokens: Seq<Seq<char>>,
    cwd: Seq<char>,
    spec: Spec,
    other_tokens: Seq<Seq<char>>,
    other_cwd: Seq<char>,
    other: Spec,
)
    requires
        spec.generate_spec_cache_key is None,
        other.generate_spec_cache_key is None,
        forall|i: int|
            0 <= i < hook_call(tokens, cwd, spec).len() ==> !(#[trigger] hook_call(
                tokens,
                cwd,
                spec,
            )[i]).contains('\u{1f}'),
        forall|i: int|
            0 <= i < hook_call(other_tokens, other_cwd, other).len() ==> !(#[trigger] hook_call(
                other_tokens,
                other_cwd,
                other,
            )[i]).contains('\u{1f}'),
        generate_key(tokens, cwd, spec) == generate_key(other_tokens, other_cwd, other),
    ensures
        tokens == other_tokens,
        cwd == other_cwd,
        or_empty(opt_text(spec.js_generate_spec)) == or_empty(opt_text(other.js_generate_spec)),
{
    let a = hook_call(tokens, cwd, spec);
    let b = hook_call(other_tokens, other_cwd, other);
    reveal_strlit("\u{1f}");
    assert("\u{1f}"@ =~= seq!['\u{1f}']);
    law_joined_parts_are_told_apart(a, b, '\u{1f}');
    assert(a[1] == b[1] && a[2] == b[2]);
    assert(tokens =~= a.skip(3));
    assert(other_tokens =~= b.skip(3));
}

// ---------------------------------------------------------------------------
// The state of a walk
// ---------------------------------------------------------------------------
/// An option argument that is being filled, and how many values it has.
pub struct OptionArgState {
    pub arg: Arc<ArgSpec>,
    pub count: usize,
}

/// An option argument that is being filled, and how many values it has.
pub open spec fn filling(state: Option<OptionArgState>) -> Option<(Arc<ArgSpec>, int)> {
    match state {
        Some(state) => Some((state.arg, state.count as int)),
        None => None,
    }
}

/// Whether an option may follow a value of a variadic argument.
pub open spec fn can_break(arg: ArgSpec) -> bool {
    arg.options_can_break_variadic_arg != Some(false)
}

/// Whether an option argument insists on the next word.
pub open spec fn insists(option_arg: Option<(Arc<ArgSpec>, int)>) -> bool {
    option_arg matches Some((arg, count)) && (arg.is_variadic || !arg.is_optional)
}

/// Whether the next word may be a subcommand.
pub open spec fn subcommands_allowed(option_arg: Option<(Arc<ArgSpec>, int)>, entered: bool) -> bool {
    !insists(option_arg) && !entered
}

/// Whether the next word may be an option.
pub open spec fn options_allowed(
    directives: DirectivesView,
    after_dashes: bool,
    entered: bool,
    option_arg: Option<(Arc<ArgSpec>, int)>,
    args: Seq<Arc<ArgSpec>>,
    slot: Option<int>,
    variadic: int,
) -> bool {
    if after_dashes || (directives.options_first == Some(true) && entered) {
        false
    } else if insists(option_arg) {
        let (arg, count) = option_arg->Some_0;
        arg.is_variadic && count > 0 && can_break(*arg)
    } else {
        !(slot matches Some(i) && args[i].is_variadic && variadic > 0 && !can_break(*args[i]))
    }
}

/// Computes [`subcommands_allowed`].
pub fn can_consume_subcommands(option_arg: &Option<OptionArgState>, entered_args: bool) -> (yes:
    bool)
    ensures
        yes == subcommands_allowed(filling(*option_arg), entered_args),
{
    if entered_args {
        return false;
    }
    match option_arg {
        Some(state) => !(state.arg.is_variadic || !state.arg.is_optional),
        None => true,
    }
}

/// Computes [`options_allowed`].
pub fn can_consume_options(
    directives: &ParserDirectives,
    after_double_dash: bool,
    entered_args: bool,
    option_arg: &Option<OptionArgState>,
    args: &[Arc<ArgSpec>],
    slot: Option<usize>,
    variadic_count: usize,
) -> (yes: bool)
    requires
        slot matches Some(i) ==> i < args@.len(),
    ensures
        yes == options_allowed(
            directives@,
            after_double_dash,
            entered_args,
            filling(*option_arg),
            args@,
            opt_int(slot),
            variadic_count as int,
        ),
{
    if after_double_dash {
        return false;
    }
    if directives.options_must_precede_arguments == Some(true) && entered_args {
        return false;
    }
    if let Some(state) = option_arg {
        if state.arg.is_variadic || !state.arg.is_optional {
            return state.arg.is_variadic && state.count > 0
                && state.arg.options_can_break_variadic_arg != Some(false);
        }
    }
    if let Some(i) = slot {
        if args[i].is_variadic && variadic_count > 0 && args[i].options_can_break_variadic_arg
            == Some(false) {
            return false;
        }
    }
    true
}

/// An optional place as an integer.
pub open spec fn opt_int(slot: Option<usize>) -> Option<int> {
    match slot {
        Some(i) => Some(i as int),
        None => None,
    }
}

/// Where a walk stands.
pub struct WalkState {
    /// The command or subcommand reached.
    pub current: Arc<Spec>,
    /// The next word.
    pub index: usize,
    /// The first word behind those that led to `current`.
    pub path_end: usize,
    /// The number of the next positional argument.
    pub positional: usize,
    pub after_double_dash: bool,
    pub persistent: Vec<Arc<OptionSpec>>,
    /// The options passed to `current`.
    pub passed: Vec<Arc<OptionSpec>>,
    pub directives: ParserDirectives,
    pub option_arg: Option<OptionArgState>,
    /// Whether `current` has got a positional word.
    pub entered_args: bool,
    /// How many words its variadic argument has got.
    pub variadic_count: usize,
    /// How many hooks were asked for specs.
    pub asked: usize,
}

/// Where a walk stands.
#[verifier::ext_equal]
pub struct WalkView {
    pub current: Arc<Spec>,
    pub index: int,
    pub path_end: int,
    pub positional: int,
    pub after_dashes: bool,
    pub persistent: Seq<Arc<OptionSpec>>,
    pub passed: Seq<Arc<OptionSpec>>,
    pub directives: DirectivesView,
    pub option_arg: Option<(Arc<ArgSpec>, int)>,
    pub entered: bool,
    pub variadic: int,
    pub asked: int,
}

impl View for WalkState {
    type V = WalkView;

    open spec fn view(&self) -> WalkView {
        WalkView {
            current: self.current,
            index: self.index as int,
            path_end: self.path_end as int,
            positional: self.positional as int,
            after_dashes: self.after_double_dash,
            persistent: self.persistent@,
            passed: self.passed@,
            directives: self.directives@,
            option_arg: filling(self.option_arg),
            entered: self.entered_args,
            variadic: self.variadic_count as int,
            asked: self.asked as int,
        }
    }
}

impl WalkView {
    /// The options in force.
    pub open spec fn options(self) -> Seq<Arc<OptionSpec>> {
        options_in_force(self.current.options@, self.persistent)
    }

    /// The argument that the next positional word fills.
    pub open spec fn slot(self) -> Option<int> {
        arg_slot(self.current.args@, self.positional)
    }

    /// Whether the next word may be an option.
    pub open spec fn takes_options(self) -> bool {
        options_allowed(
            self.directives,
            self.after_dashes,
            self.entered,
            self.option_arg,
            self.current.args@,
            self.slot(),
            self.variadic,
        )
    }
}

impl WalkState {
    /// What bounds the counters of a walk.
    pub open spec fn sound(&self, answers: SpecAnswers) -> bool {
        &&& self.positional <= self.index
        &&& self.variadic_count <= self.index
        &&& self.path_end <= self.index
        &&& self.asked <= answers.generated@.len()
        &&& self.option_arg matches Some(state) ==> state.count <= self.index
    }

    fn takes_options(&self, slot: Option<usize>) -> (yes: bool)
        requires
            opt_int(slot) == self@.slot(),
            slot matches Some(i) ==> i < self.current.args@.len(),
        ensures
            yes == self@.takes_options(),
    {
        can_consume_options(
            &self.directives,
            self.after_double_dash,
            self.entered_args,
            &self.option_arg,
            &self.current.args,
            slot,
            self.variadic_count,
        )
    }
}

/// The start of a walk at a command.
pub open spec fn walk_start(answers: SpecAnswers, root: Arc<Spec>) -> Walked<WalkView> {
    match with_generated(answers, root, 0) {
        Walked::Needs(need) => Walked::Needs(need),
        Walked::Done((current, asked)) => Walked::Done(
            WalkView {
                current,
                index: 1,
                path_end: 1,
                positional: 0,
                after_dashes: false,
                persistent: persistent_in(Seq::empty(), current.persistent_options@),
                passed: Seq::empty(),
                directives: own_directives(*current),
                option_arg: None,
                entered: false,
                variadic: 0,
                asked,
            },
        ),
    }
}

/// The walk behind the words up to `index`, where a loaded spec takes over.
pub open spec fn entered_spec(
    answers: SpecAnswers,
    w: WalkView,
    next: Arc<Spec>,
    index: int,
) -> Walked<WalkView> {
    match with_generated(answers, next, w.asked) {
        Walked::Needs(need) => Walked::Needs(need),
        Walked::Done((current, asked)) => Walked::Done(
            WalkView {
                current,
                index,
                path_end: index,
                positional: 0,
                persistent: persistent_in(w.persistent, current.persistent_options@),
                passed: Seq::empty(),
                directives: merged(w.directives, *current),
                option_arg: None,
                entered: false,
                variadic: 0,
                asked,
                ..w
            },
        ),
    }
}

/// The walk behind a completed argument, where a spec may take over.
pub open spec fn behind_arg(
    answers: SpecAnswers,
    w: WalkView,
    arg: ArgSpec,
    token: Seq<char>,
) -> Walked<WalkView> {
    match after_arg(answers, arg, token) {
        Walked::Needs(need) => Walked::Needs(need),
        Walked::Done(None) => Walked::Done(w),
        Walked::Done(Some(next)) => entered_spec(answers, w, next, w.index),
    }
}

/// The walk behind the word that names a subcommand.
pub open spec fn entered_subcommand(
    answers: SpecAnswers,
    w: WalkView,
    next: Arc<Spec>,
) -> Walked<WalkView> {
    match with_generated(answers, next, w.asked) {
        Walked::Needs(need) => Walked::Needs(need),
        Walked::Done((current, asked)) => Walked::Done(
            WalkView {
                current,
                index: w.index + 1,
                path_end: w.index + 1,
                positional: 0,
                persistent: persistent_in(w.persistent, current.persistent_options@),
                passed: Seq::empty(),
                directives: inherited(w.directives, *current),
                entered: false,
                variadic: 0,
                asked,
                ..w
            },
        ),
    }
}

/// An option argument that has got its first value and may take more.
pub open spec fn open_variadic(arg: Arc<ArgSpec>) -> Option<(Arc<ArgSpec>, int)> {
    if arg.is_variadic {
        Some((arg, 1int))
    } else {
        None
    }
}

/// The walk behind an option word.
pub open spec fn behind_option(
    answers: SpecAnswers,
    w: WalkView,
    tokens: Seq<Seq<char>>,
    limit: int,
    r: ResolvedOptionToken,
) -> Walked<WalkView> {
    let token = tokens[w.index];
    let args = w.options()[r.option as int].args@;
    let counted = WalkView {
        passed: w.passed + passed_by(w.options(), token, w.directives),
        ..w
    };
    if args.len() == 0 {
        Walked::Done(WalkView { index: w.index + 1, ..counted })
    } else {
        match r.value {
            Some(v) => behind_arg(
                answers,
                WalkView { option_arg: open_variadic(args[0]), index: w.index + 1, ..counted },
                *args[0],
                token.skip(v as int),
            ),
            None => if w.index + 1 < limit && (takes_value(
                *w.current,
                args,
                tokens[w.index + 1],
            ) || !args[0].is_optional) {
                behind_arg(
                    answers,
                    WalkView { option_arg: open_variadic(args[0]), index: w.index + 2, ..counted },
                    *args[0],
                    tokens[w.index + 1],
                )
            } else {
                Walked::Done(
                    WalkView { option_arg: Some((args[0], 0int)), index: w.index + 1, ..counted },
                )
            },
        }
    }
}

/// What the next word of a walk is.
#[derive(Clone, Copy, Debug)]
pub enum Step {
    /// The word that ends the options.
    Dashes,
    /// An option.
    Option(ResolvedOptionToken),
    /// A value of the option argument being filled.
    Fill,
    /// The name of a subcommand, by its place.
    Child(usize),
    /// A value of a positional argument, by its place.
    Slot(usize),
    /// A word that nothing takes.
    Extra,
}

/// What the next word of a walk is.
pub open spec fn step_of(w: WalkView, tokens: Seq<Seq<char>>) -> Step {
    let token = tokens[w.index];
    let option = if w.takes_options() && is_dashed(token) {
        resolved(w.options(), token, w.directives)
    } else {
        None
    };
    let child = if !w.after_dashes && subcommands_allowed(w.option_arg, w.entered) && !is_dashed(
        token,
    ) {
        spec_named(w.current.subcommands@, token, 0)
    } else {
        None
    };
    if token == "--"@ && w.takes_options() {
        Step::Dashes
    } else if let Some(r) = option {
        Step::Option(r)
    } else if w.option_arg is Some {
        Step::Fill
    } else if let Some(i) = child {
        Step::Child(i as usize)
    } else if let Some(i) = w.slot() {
        Step::Slot(i as usize)
    } else {
        Step::Extra
    }
}

/// The walk behind its next word.
pub open spec fn walk_step(
    answers: SpecAnswers,
    w: WalkView,
    tokens: Seq<Seq<char>>,
    limit: int,
) -> Walked<WalkView> {
    let token = tokens[w.index];
    match step_of(w, tokens) {
        Step::Dashes => Walked::Done(WalkView { after_dashes: true, index: w.index + 1, ..w }),
        Step::Option(r) => behind_option(answers, w, tokens, limit, r),
        Step::Fill => {
            let (arg, count) = w.option_arg->Some_0;
            Walked::Done(
                WalkView {
                    option_arg: if arg.is_variadic {
                        Some((arg, count + 1))
                    } else {
                        None
                    },
                    index: w.index + 1,
                    ..w
                },
            )
        },
        Step::Child(i) => entered_subcommand(answers, w, w.current.subcommands@[i as int]),
        Step::Slot(i) => {
            let arg = w.current.args@[i as int];
            behind_arg(answers, filled_slot(w, arg), *arg, token)
        },
        Step::Extra => Walked::Done(
            WalkView { positional: w.positional + 1, index: w.index + 1, ..w },
        ),
    }
}

/// The walk behind a word that filled a positional argument.
pub open spec fn filled_slot(w: WalkView, arg: Arc<ArgSpec>) -> WalkView {
    WalkView {
        entered: true,
        variadic: if arg.is_variadic {
            w.variadic + 1
        } else {
            w.variadic
        },
        positional: if arg.is_variadic {
            w.positional
        } else {
            w.positional + 1
        },
        index: w.index + 1,
        ..w
    }
}

/// The walk behind the words before `limit`.
pub open spec fn walk_from(
    answers: SpecAnswers,
    w: WalkView,
    tokens: Seq<Seq<char>>,
    limit: int,
) -> Walked<WalkView>
    decreases limit - w.index,
{
    if w.index >= limit {
        Walked::Done(w)
    } else {
        match walk_step(answers, w, tokens, limit) {
            Walked::Needs(need) => Walked::Needs(need),
            Walked::Done(next) => if next.index > w.index {
                walk_from(answers, next, tokens, limit)
            } else {
                Walked::Done(next)
            },
        }
    }
}

/// The walk over the words before `limit`, from a command on.
pub open spec fn walked(
    answers: SpecAnswers,
    root: Arc<Spec>,
    tokens: Seq<Seq<char>>,
    limit: int,
) -> Walked<WalkView> {
    match walk_start(answers, root) {
        Walked::Needs(need) => Walked::Needs(need),
        Walked::Done(start) => walk_from(answers, start, tokens, limit),
    }
}

/// Whether a result of a part of a walk is the stated one.
pub open spec fn is_outcome(out: Result<WalkState, Need>, stated: Walked<WalkView>) -> bool {
    match out {
        Ok(state) => stated == Walked::Done(state@),
        Err(need) => stated == Walked::<WalkView>::Needs(need@),
    }
}

fn enter_loaded_spec(
    answers: &SpecAnswers,
    state: WalkState,
    next: Arc<Spec>,
    index: usize,
) -> (out: Result<WalkState, Need>)
    requires
        state.sound(*answers),
        state.index <= index,
    ensures
        is_outcome(out, entered_spec(*answers, state@, next, index as int)),
        out matches Ok(after) ==> after.sound(*answers) && after.index == index,
{
    match apply_generate_spec(answers, next, state.asked) {
        Err(need) => Err(need),
        Ok((current, asked)) => {
            let persistent = merge_persistent_options(&state.persistent, &current);
            let directives = merge_parser_directives(&state.directives, &current);
            let after = WalkState {
                current,
                index,
                path_end: index,
                positional: 0,
                persistent,
                passed: Vec::new(),
                directives,
                option_arg: None,
                entered_args: false,
                variadic_count: 0,
                asked,
                after_double_dash: state.after_double_dash,
            };
            proof {
                let stated = entered_spec(*answers, state@, next, index as int);
                assert(after@ =~= stated->Done_0);
            }
            Ok(after)
        },
    }
}

fn go_behind_arg(answers: &SpecAnswers, state: WalkState, arg: &ArgSpec, token: &str) -> (out:
    Result<WalkState, Need>)
    requires
        state.sound(*answers),
    ensures
        is_outcome(out, behind_arg(*answers, state@, *arg, token@)),
        out matches Ok(after) ==> after.sound(*answers) && after.index == state.index,
{
    match next_spec_after_arg(answers, arg, token) {
        Err(need) => Err(need),
        Ok(None) => Ok(state),
        Ok(Some(next)) => {
            let index = state.index;
            enter_loaded_spec(answers, state, next, index)
        },
    }
}

fn enter_subcommand(answers: &SpecAnswers, state: WalkState, next: Arc<Spec>) -> (out: Result<
    WalkState,
    Need,
>)
    requires
        state.sound(*answers),
        state.index < usize::MAX,
    ensures
        is_outcome(out, entered_subcommand(*answers, state@, next)),
        out matches Ok(after) ==> after.sound(*answers) && after.index == state.index + 1,
{
    match apply_generate_spec(answers, next, state.asked) {
        Err(need) => Err(need),
        Ok((current, asked)) => {
            let persistent = merge_persistent_options(&state.persistent, &current);
            let directives = inherit_subcommand_directives(&state.directives, &current);
            let after = WalkState {
                current,
                index: state.index + 1,
                path_end: state.index + 1,
                positional: 0,
                persistent,
                passed: Vec::new(),
                directives,
                entered_args: false,
                variadic_count: 0,
                asked,
                option_arg: state.option_arg,
                after_double_dash: state.after_double_dash,
            };
            proof {
                let stated = entered_subcommand(*answers, state@, next);
                assert(after@ =~= stated->Done_0);
            }
            Ok(after)
        },
    }
}

/// The state of an option argument that has got its first value.
pub fn first_value(arg: &Arc<ArgSpec>) -> (state: Option<OptionArgState>)
    ensures
        filling(state) == open_variadic(*arg),
        state matches Some(s) ==> s.count == 1,
{
    if arg.is_variadic {
        Some(OptionArgState { arg: share(arg), count: 1 })
    } else {
        None
    }
}

fn go_behind_option(
    answers: &SpecAnswers,
    state: WalkState,
    tokens: &[String],
    limit: usize,
    options: &Vec<Arc<OptionSpec>>,
    w: &Vec<char>,
    r: ResolvedOptionToken,
) -> (out: Result<WalkState, Need>)
    requires
        state.sound(*answers),
        1 <= state.index < limit <= tokens@.len(),
        options@ == state@.options(),
        w@ == tokens@[state.index as int]@,
        r.option < options@.len(),
        r.value matches Some(v) ==> v <= w@.len(),
    ensures
        is_outcome(
            out,
            behind_option(*answers, state@, texts(tokens@), limit as int, r),
        ),
        out matches Ok(after) ==> after.sound(*answers) && state.index < after.index <= limit,
{
    let ghost start = state@;
    let mut passed = state.passed;
    let mut more = options_in_token(options, w, &state.directives);
    let ghost added = more@;
    passed.append(&mut more);
    proof {
        assert(passed@ =~= start.passed + added);
        assert(texts(tokens@)[state.index as int] == w@);
    }
    let option = &options[r.option];
    if option.args.len() == 0 {
        let after = WalkState { passed, index: state.index + 1, ..state };
        proof {
            assert(after@ =~= (behind_option(
                *answers,
                start,
                texts(tokens@),
                limit as int,
                r,
            ))->Done_0);
        }
        return Ok(after);
    }
    let arg = &option.args[0];
    match r.value {
        Some(v) => {
            let n = w.len();
            let attached = text_range(w, v, n);
            proof {
                assert(w@.skip(v as int) =~= w@.subrange(v as int, n as int));
            }
            let after = WalkState {
                passed,
                option_arg: first_value(arg),
                index: state.index + 1,
                ..state
            };
            proof {
                assert(after@ =~= (WalkView {
                    option_arg: open_variadic(*arg),
                    index: start.index + 1,
                    passed: start.passed + added,
                    ..start
                }));
            }
            go_behind_arg(answers, after, arg, &attached)
        },
        None => {
            if state.index + 1 < limit {
                let next = &tokens[state.index + 1];
                proof {
                    assert(texts(tokens@)[state.index + 1] == next@);
                }
                if should_consume_option_value(&state.current, option, next) || !arg.is_optional {
                    let after = WalkState {
                        passed,
                        option_arg: first_value(arg),
                        index: state.index + 2,
                        ..state
                    };
                    proof {
                        assert(after@ =~= (WalkView {
                            option_arg: open_variadic(*arg),
                            index: start.index + 2,
                            passed: start.passed + added,
                            ..start
                        }));
                    }
                    return go_behind_arg(answers, after, arg, next);
                }
            }
            let after = WalkState {
                passed,
                option_arg: Some(OptionArgState { arg: share(arg), count: 0 }),
                index: state.index + 1,
                ..state
            };
            proof {
                assert(after@ =~= (WalkView {
                    option_arg: Some((*arg, 0int)),
                    index: start.index + 1,
                    passed: start.passed + added,
                    ..start
                }));
            }
            Ok(after)
        },
    }
}

/// Computes [`step_of`].
pub fn find_step(state: &WalkState, tokens: &[String]) -> (step: Step)
    requires
        state.index < tokens@.len(),
    ensures
        step == step_of(state@, texts(tokens@)),
        step matches Step::Option(r) ==> r.option < state@.options().len() && (r.value matches Some(v)
            ==> v <= tokens@[state.index as int]@.len()),
        step matches Step::Child(i) ==> i < state.current.subcommands@.len() && state.option_arg
            is None,
        step matches Step::Slot(i) ==> i < state.current.args@.len(),
        step is Fill ==> state.option_arg is Some,
{
    let token = &tokens[state.index];
    let w = chars_of(token);
    proof {
        assert(texts(tokens@)[state.index as int] == token@);
        reveal_strlit("--");
    }
    let slot = positional_arg(&state.current.args, state.positional);
    let takes_options = state.takes_options(slot);
    if takes_options && same(token, "--") {
        return Step::Dashes;
    }
    let dashed = w.len() > 0 && w[0] == '-';
    if takes_options && dashed {
        let options = gather_options(&state.current.options, &state.persistent);
        if let Some(r) = resolve_option_token(&options, &w, &state.directives) {
            return Step::Option(r);
        }
    }
    if state.option_arg.is_some() {
        return Step::Fill;
    }
    if !state.after_double_dash && !dashed && can_consume_subcommands(
        &state.option_arg,
        state.entered_args,
    ) {
        if let Some(i) = find_named(&state.current.subcommands, token) {
            return Step::Child(i);
        }
    }
    match slot {
        Some(i) => Step::Slot(i),
        None => Step::Extra,
    }
}

/// Computes [`walk_step`].
pub fn step_walk(
    answers: &SpecAnswers,
    state: WalkState,
    tokens: &[String],
    limit: usize,
) -> (out: Result<WalkState, Need>)
    requires
        state.sound(*answers),
        1 <= state.index < limit <= tokens@.len(),
    ensures
        is_outcome(out, walk_step(*answers, state@, texts(tokens@), limit as int)),
        out matches Ok(after) ==> after.sound(*answers) && state.index < after.index <= limit,
{
    let ghost start = state@;
    let token = &tokens[state.index];
    proof {
        assert(texts(tokens@)[state.index as int] == token@);
    }
    match find_step(&state, tokens) {
        Step::Dashes => Ok(
            WalkState { after_double_dash: true, index: state.index + 1, ..state },
        ),
        Step::Option(r) => {
            let w = chars_of(token);
            let options = gather_options(&state.current.options, &state.persistent);
            go_behind_option(answers, state, tokens, limit, &options, &w, r)
        },
        Step::Fill => {
            let next: Option<OptionArgState> = match &state.option_arg {
                Some(filled) => {
                    if filled.arg.is_variadic {
                        Some(OptionArgState { arg: share(&filled.arg), count: filled.count + 1 })
                    } else {
                        None
                    }
                },
                None => None,
            };
            Ok(WalkState { option_arg: next, index: state.index + 1, ..state })
        },
        Step::Child(i) => {
            let next = share(&state.current.subcommands[i]);
            enter_subcommand(answers, state, next)
        },
        Step::Slot(i) => {
            let arg = share(&state.current.args[i]);
            let after = WalkState {
                entered_args: true,
                variadic_count: if arg.is_variadic {
                    state.variadic_count + 1
                } else {
                    state.variadic_count
                },
                positional: if arg.is_variadic {
                    state.positional
                } else {
                    state.positional + 1
                },
                index: state.index + 1,
                ..state
            };
            proof {
                assert(after@ =~= filled_slot(start, arg));
            }
            go_behind_arg(answers, after, &arg, token)
        },
        Step::Extra => Ok(
            WalkState { positional: state.positional + 1, index: state.index + 1, ..state },
        ),
    }
}

/// Computes [`walk_start`].
pub fn start_walk(answers: &SpecAnswers, root: Arc<Spec>) -> (out: Result<WalkState, Need>)
    ensures
        is_outcome(out, walk_start(*answers, root)),
        out matches Ok(state) ==> state.sound(*answers) && state.index == 1,
{
    let none: Vec<Arc<OptionSpec>> = Vec::new();
    match apply_generate_spec(answers, root, 0) {
        Err(need) => Err(need),
        Ok((current, asked)) => {
            let persistent = merge_persistent_options(&none, &current);
            let directives = root_directives(&current);
            let state = WalkState {
                current,
                index: 1,
                path_end: 1,
                positional: 0,
                after_double_dash: false,
                persistent,
                passed: Vec::new(),
                directives,
                option_arg: None,
                entered_args: false,
                variadic_count: 0,
                asked,
            };
            proof {
                assert(none@ =~= Seq::<Arc<OptionSpec>>::empty());
                assert(state@ =~= walk_start(*answers, root)->Done_0);
            }
            Ok(state)
        },
    }
}

/// Follows the words before `limit` through a command's spec.
pub fn walk_spec(answers: &SpecAnswers, root: Arc<Spec>, tokens: &[String], limit: usize) -> (out:
    Result<WalkState, Need>)
    requires
        limit <= tokens@.len(),
    ensures
        is_outcome(out, walked(*answers, root, texts(tokens@), limit as int)),
        out matches Ok(after) ==> after.sound(*answers),
{
    let mut state = match start_walk(answers, root) {
        Err(need) => {
            return Err(need);
        },
        Ok(state) => state,
    };
    let ghost stated = walked(*answers, root, texts(tokens@), limit as int);
    while state.index < limit
        invariant
            state.sound(*answers),
            1 <= state.index,
            limit <= tokens@.len(),
            stated == walked(*answers, root, texts(tokens@), limit as int),
            stated == walk_from(*answers, state@, texts(tokens@), limit as int),
        decreases limit - state.index,
    {
        match step_walk(answers, state, tokens, limit) {
            Err(need) => {
                return Err(need);
            },
            Ok(next) => {
                state = next;
            },
        }
    }
    Ok(state)
}

// ---------------------------------------------------------------------------
// Walking again with more answers
// ---------------------------------------------------------------------------
/// Whether `more` holds the answers of `fewer` and perhaps further ones.
pub open spec fn extends(fewer: SpecAnswers, more: SpecAnswers) -> bool {
    &&& fewer.lookup == more.lookup
    &&& fewer.hooks == more.hooks
    &&& fewer.specs@.len() <= more.specs@.len()
    &&& fewer.specs@ == more.specs@.take(fewer.specs@.len() as int)
    &&& fewer.generated@.len() <= more.generated@.len()
    &&& fewer.generated@ == more.generated@.take(fewer.generated@.len() as int)
}

/// A known answer stays when further ones come in.
pub proof fn lemma_answer_kept(fewer: SpecAnswers, more: SpecAnswers, name: Seq<char>, i: int)
    requires
        extends(fewer, more),
        0 <= i,
    ensures
        spec_answer(fewer.specs@, name, i) is Some ==> spec_answer(more.specs@, name, i)
            == spec_answer(fewer.specs@, name, i),
    decreases fewer.specs@.len() - i,
{
    if i < fewer.specs@.len() {
        assert(more.specs@.take(fewer.specs@.len() as int)[i] == more.specs@[i]);
        lemma_answer_kept(fewer, more, name, i + 1);
    }
}

proof fn lemma_generated_kept(fewer: SpecAnswers, more: SpecAnswers, spec: Arc<Spec>, asked: int)
    requires
        extends(fewer, more),
    ensures
        with_generated(fewer, spec, asked) is Done ==> with_generated(more, spec, asked)
            == with_generated(fewer, spec, asked),
{
    if 0 <= asked < fewer.generated@.len() {
        assert(more.generated@.take(fewer.generated@.len() as int)[asked]
            == more.generated@[asked]);
    }
}

proof fn lemma_behind_arg_kept(
    fewer: SpecAnswers,
    more: SpecAnswers,
    w: WalkView,
    arg: Arc<ArgSpec>,
    token: Seq<char>,
)
    requires
        extends(fewer, more),
    ensures
        behind_arg(fewer, w, *arg, token) is Done ==> behind_arg(more, w, *arg, token) == behind_arg(
            fewer,
            w,
            *arg,
            token,
        ),
{
    assert forall|name: Seq<char>|
        #![trigger spec_answer(fewer.specs@, name, 0)]
        spec_answer(fewer.specs@, name, 0) is Some implies spec_answer(more.specs@, name, 0)
        == spec_answer(fewer.specs@, name, 0) by {
        lemma_answer_kept(fewer, more, name, 0);
    }
    assert forall|next: Arc<Spec>|
        #![trigger with_generated(fewer, next, w.asked)]
        with_generated(fewer, next, w.asked) is Done implies with_generated(more, next, w.asked)
        == with_generated(fewer, next, w.asked) by {
        lemma_generated_kept(fewer, more, next, w.asked);
    }
}

proof fn lemma_step_kept(
    fewer: SpecAnswers,
    more: SpecAnswers,
    w: WalkView,
    tokens: Seq<Seq<char>>,
    limit: int,
)
    requires
        extends(fewer, more),
    ensures
        walk_step(fewer, w, tokens, limit) is Done ==> walk_step(more, w, tokens, limit)
            == walk_step(fewer, w, tokens, limit),
{
    let token = tokens[w.index];
    match step_of(w, tokens) {
        Step::Option(r) => {
            let args = w.options()[r.option as int].args@;
            let counted = WalkView {
                passed: w.passed + passed_by(w.options(), token, w.directives),
                ..w
            };
            lemma_behind_arg_kept(
                fewer,
                more,
                WalkView { option_arg: open_variadic(args[0]), index: w.index + 2, ..counted },
                args[0],
                tokens[w.index + 1],
            );
            if let Some(v) = r.value {
                lemma_behind_arg_kept(
                    fewer,
                    more,
                    WalkView { option_arg: open_variadic(args[0]), index: w.index + 1, ..counted },
                    args[0],
                    token.skip(v as int),
                );
            }
        },
        Step::Child(i) => {
            lemma_generated_kept(fewer, more, w.current.subcommands@[i as int], w.asked);
        },
        Step::Slot(i) => {
            let arg = w.current.args@[i as int];
            lemma_behind_arg_kept(fewer, more, filled_slot(w, arg), arg, token);
        },
        _ => {},
    }
}

proof fn lemma_walk_kept(
    fewer: SpecAnswers,
    more: SpecAnswers,
    w: WalkView,
    tokens: Seq<Seq<char>>,
    limit: int,
)
    requires
        extends(fewer, more),
    ensures
        walk_from(fewer, w, tokens, limit) is Done ==> walk_from(more, w, tokens, limit)
            == walk_from(fewer, w, tokens, limit),
    decreases limit - w.index,
{
    if w.index < limit {
        lemma_step_kept(fewer, more, w, tokens, limit);
        if let Walked::Done(next) = walk_step(fewer, w, tokens, limit) {
            if next.index > w.index {
                lemma_walk_kept(fewer, more, next, tokens, limit);
            }
        }
    }
}

/// A finished walk stays as it is when further answers come in.
pub proof fn law_finished_walks_stand(
    fewer: SpecAnswers,
    more: SpecAnswers,
    root: Arc<Spec>,
    tokens: Seq<Seq<char>>,
    limit: int,
)
    requires
        extends(fewer, more),
    ensures
        walked(fewer, root, tokens, limit) is Done ==> walked(more, root, tokens, limit) == walked(
            fewer,
            root,
            tokens,
            limit,
        ),
{
    lemma_generated_kept(fewer, more, root, 0);
    if let Walked::Done(start) = walk_start(fewer, root) {
        lemma_walk_kept(fewer, more, start, tokens, limit);
    }
}

proof fn lemma_walk_needs(
    answers: SpecAnswers,
    w: WalkView,
    tokens: Seq<Seq<char>>,
    limit: int,
    name: Seq<char>,
)
    ensures
        walk_from(answers, w, tokens, limit) == Walked::<WalkView>::Needs(NeedView::Spec(name))
            ==> spec_answer(answers.specs@, name, 0) is None && answers.lookup,
    decreases limit - w.index,
{
    if w.index < limit {
        if let Walked::Done(next) = walk_step(answers, w, tokens, limit) {
            if next.index > w.index {
                lemma_walk_needs(answers, next, tokens, limit, name);
            }
        }
    }
}

/// A walk asks only for what it has not been told, so no name is asked twice.
pub proof fn law_walks_ask_what_is_unknown(
    answers: SpecAnswers,
    root: Arc<Spec>,
    tokens: Seq<Seq<char>>,
    limit: int,
    name: Seq<char>,
)
    ensures
        walked(answers, root, tokens, limit) == Walked::<WalkView>::Needs(NeedView::Spec(name))
            ==> spec_answer(answers.specs@, name, 0) is None,
{
    if let Walked::Done(start) = walk_start(answers, root) {
        lemma_walk_needs(answers, start, tokens, limit, name);
    }
}

proof fn lemma_walk_hooks(
    answers: SpecAnswers,
    w: WalkView,
    tokens: Seq<Seq<char>>,
    limit: int,
    spec: Arc<Spec>,
)
    ensures
        walk_from(answers, w, tokens, limit) == Walked::<WalkView>::Needs(NeedView::Generate(spec))
            ==> spec.js_generate_spec is Some && answers.hooks,
    decreases limit - w.index,
{
    if w.index < limit {
        if let Walked::Done(next) = walk_step(answers, w, tokens, limit) {
            if next.index > w.index {
                lemma_walk_hooks(answers, next, tokens, limit, spec);
            }
        }
    }
}

/// A walk asks for a hook only where a spec names one and hooks can run.
pub proof fn law_walks_ask_named_hooks(
    answers: SpecAnswers,
    root: Arc<Spec>,
    tokens: Seq<Seq<char>>,
    limit: int,
    spec: Arc<Spec>,
)
    ensures
        walked(answers, root, tokens, limit) == Walked::<WalkView>::Needs(NeedView::Generate(spec))
            ==> spec.js_generate_spec is Some && answers.hooks,
{
    if let Walked::Done(start) = walk_start(answers, root) {
        lemma_walk_hooks(answers, start, tokens, limit, spec);
    }
}

/// A spec that comes with an argument takes over behind it, whatever the word
/// is and whatever else is known.
pub proof fn law_given_specs_come_first(answers: SpecAnswers, arg: ArgSpec, token: Seq<char>)
    requires
        arg.load_spec is Some || arg.resolved_spec is Some,
    ensures
        after_arg(answers, arg, token) == Walked::Done(arg.resolved_spec),
{
}

} // verus!
