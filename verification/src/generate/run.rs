//! All rows of an argument: static ones, then those of its generators, which
//! are kept from one request to the next.
use std::sync::Arc;
use vstd::prelude::*;

use super::ask::{Ask, Asked};
use super::seeds::{
    dedup_suggestions, endangered, generate_static_seeds, law_suggestions_are_distinct,
    mark_dangerous, matching_rows, refilter_generated, same_suggestion, seed_rows, stamp_query_term,
    stamped_rows, without_duplicates, SeedQuery,
};
use super::source::{
    continues, generate_from_generator, generated, generator_lists_paths,
    law_finished_generators_stand, lists_paths, or_other, GenerateInput,
};
use super::trigger::{
    deciding_hook, law_only_deciding_hooks_count, should_trigger, trigger_hook, triggers,
    DEFAULT_DEBOUNCE_MS,
};
use crate::ir::{
    ArgSpec, Builtin, GeneratorSpec, GeneratorTrigger, Spec, SuggestionSeed, Template,
};
use crate::lookup::active::{context_of, resolve_context, ActiveArg, ActiveView, ContextView};
use crate::lookup::walk::{Need, SpecAnswers, Walked};
use crate::runtime::{
    copy_rows, extend_rows, hook_in_use, hook_to_run, hooks_at_hand, query_term_with_hook, rows,
    term_with_hook, Suggestion, SuggestionView,
};
use crate::text::{
    as_text, begins_with, copy_texts, join, joined, opt_str, opt_text, same, share, starts_with, texts,
};

verus! {

// ---------------------------------------------------------------------------
// The generators of an argument
// ---------------------------------------------------------------------------
/// The templates of an argument that no generator covers.
pub open spec fn uncovered(templates: Seq<Template>, generators: Seq<Arc<GeneratorSpec>>) -> Seq<
    Template,
>
    decreases templates.len(),
{
    if templates.len() == 0 {
        Seq::empty()
    } else {
        let earlier = uncovered(templates.drop_last(), generators);
        if is_covered(templates.last(), generators) {
            earlier
        } else {
            earlier.push(templates.last())
        }
    }
}

/// Whether a generator has a template.
pub open spec fn is_covered(template: Template, generators: Seq<Arc<GeneratorSpec>>) -> bool {
    exists|i: int| 0 <= i < generators.len() && (#[trigger] generators[i]).templates@.contains(template)
}

/// Whether a generator has templates and nothing else.
pub open spec fn is_template_generator(generator: GeneratorSpec, templates: Seq<Template>) -> bool {
    &&& generator.templates@ == templates
    &&& generator.script@.len() == 0 && generator.split_on is None
    &&& generator.js_post_process is None && generator.js_custom is None
    &&& generator.js_script is None && generator.cache_key is None
    &&& generator.cache_by_directory is None && generator.cache_ttl_ms is None
    &&& generator.cache_strategy is None && generator.script_timeout_ms is None
    &&& generator.builtin is None && generator.get_query_term is None
    &&& generator.js_get_query_term is None
    &&& has_no_extras(generator)
}

/// Whether a generator has no settings beyond those that an argument can have
/// itself.
pub open spec fn has_no_extras(generator: GeneratorSpec) -> bool {
    &&& generator.js_filter_template_suggestions is None && generator.trigger is None
    &&& generator.show_folders is None && generator.extensions@.len() == 0
    &&& generator.equals@.len() == 0 && generator.filter_folders is None
    &&& generator.file_priority is None && generator.folder_priority is None
    &&& generator.root_directory is None && generator.matches is None
    &&& generator.matches_flags is None
}

/// Whether a generator has the settings of an argument.
pub open spec fn is_own_generator(generator: GeneratorSpec, arg: ArgSpec) -> bool {
    &&& generator.templates@ == arg.templates@
    &&& texts(generator.script@) == texts(arg.script@)
    &&& opt_text(generator.split_on) == opt_text(arg.split_on)
    &&& opt_text(generator.js_post_process) == opt_text(arg.js_post_process)
    &&& opt_text(generator.js_custom) == opt_text(arg.js_custom)
    &&& opt_text(generator.js_script) == opt_text(arg.js_script)
    &&& opt_text(generator.cache_key) == opt_text(arg.cache_key)
    &&& generator.cache_by_directory == arg.cache_by_directory
    &&& generator.cache_ttl_ms == arg.cache_ttl_ms
    &&& opt_text(generator.cache_strategy) == opt_text(arg.cache_strategy)
    &&& generator.script_timeout_ms == arg.script_timeout_ms
    &&& generator.builtin == arg.builtin
    &&& opt_text(generator.get_query_term) == opt_text(arg.meta.get_query_term)
    &&& opt_text(generator.js_get_query_term) == or_other(
        opt_text(arg.js_get_query_term),
        opt_text(arg.meta.js_get_query_term),
    )
    &&& has_no_extras(generator)
}

/// Whether generators are those of an argument: its own, and one for the
/// templates that they leave out; or, where it has none, one with its settings.
pub open spec fn are_effective(generators: Seq<Arc<GeneratorSpec>>, arg: ArgSpec) -> bool {
    let own = arg.generators@;
    let missing = uncovered(arg.templates@, own);
    if own.len() == 0 {
        generators.len() == 1 && is_own_generator(*generators[0], arg)
    } else if missing.len() == 0 {
        generators == own
    } else {
        generators.len() == own.len() + 1 && generators.drop_last() == own
            && is_template_generator(*generators.last(), missing)
    }
}

fn copy_templates(list: &[Template]) -> (out: Vec<Template>)
    ensures
        out@ == list@,
{
    let mut out: Vec<Template> = Vec::new();
    let mut i: usize = 0;
    while i < list.len()
        invariant
            i <= list@.len(),
            out@ == list@.take(i as int),
        decreases list@.len() - i,
    {
        out.push(list[i]);
        i += 1;
    }
    proof {
        assert(list@.take(list@.len() as int) =~= list@);
    }
    out
}

fn covers(generators: &[Arc<GeneratorSpec>], template: Template) -> (yes: bool)
    ensures
        yes == is_covered(template, generators@),
{
    let mut i: usize = 0;
    while i < generators.len()
        invariant
            i <= generators@.len(),
            forall|k: int|
                0 <= k < i ==> !(#[trigger] generators@[k]).templates@.contains(template),
        decreases generators@.len() - i,
    {
        let mut k: usize = 0;
        let list = &generators[i].templates;
        while k < list.len()
            invariant
                k <= list@.len(),
                i < generators@.len(),
                *list == generators@[i as int].templates,
                forall|j: int| 0 <= j < k ==> list@[j] != template,
            decreases list@.len() - k,
        {
            if list[k] == template {
                proof {
                    assert(list@[k as int] == template);
                    assert(generators@[i as int].templates@.contains(template));
                }
                return true;
            }
            k += 1;
        }
        proof {
            assert(!generators@[i as int].templates@.contains(template));
        }
        i += 1;
    }
    false
}

fn missing_templates(templates: &[Template], generators: &[Arc<GeneratorSpec>]) -> (out: Vec<
    Template,
>)
    ensures
        out@ == uncovered(templates@, generators@),
{
    let ghost all = templates@;
    let mut out: Vec<Template> = Vec::new();
    let mut i: usize = 0;
    proof {
        assert(out@ =~= Seq::<Template>::empty());
    }
    while i < templates.len()
        invariant
            i <= templates@.len(),
            all == templates@,
            out@ == uncovered(all.take(i as int), generators@),
        decreases templates@.len() - i,
    {
        proof {
            assert(all.take(i + 1).drop_last() =~= all.take(i as int));
        }
        if !covers(generators, templates[i]) {
            out.push(templates[i]);
        }
        i += 1;
    }
    proof {
        assert(all.take(all.len() as int) =~= all);
    }
    out
}

fn template_generator(templates: Vec<Template>) -> (generator: GeneratorSpec)
    ensures
        is_template_generator(generator, templates@),
{
    GeneratorSpec {
        templates,
        script: Vec::new(),
        split_on: None,
        js_post_process: None,
        js_custom: None,
        js_script: None,
        cache_key: None,
        cache_by_directory: None,
        cache_ttl_ms: None,
        cache_strategy: None,
        script_timeout_ms: None,
        builtin: None,
        get_query_term: None,
        js_get_query_term: None,
        js_filter_template_suggestions: None,
        trigger: None,
        show_folders: None,
        extensions: Vec::new(),
        equals: Vec::new(),
        filter_folders: None,
        file_priority: None,
        folder_priority: None,
        root_directory: None,
        matches: None,
        matches_flags: None,
    }
}

fn own_generator(arg: &ArgSpec) -> (generator: GeneratorSpec)
    ensures
        is_own_generator(generator, *arg),
{
    let js_get_query_term: Option<String> = match &arg.js_get_query_term {
        Some(hook) => Some(hook.clone()),
        None => arg.meta.js_get_query_term.clone(),
    };
    GeneratorSpec {
        script: copy_texts(&arg.script),
        split_on: arg.split_on.clone(),
        js_post_process: arg.js_post_process.clone(),
        js_custom: arg.js_custom.clone(),
        js_script: arg.js_script.clone(),
        cache_key: arg.cache_key.clone(),
        cache_by_directory: arg.cache_by_directory,
        cache_ttl_ms: arg.cache_ttl_ms,
        cache_strategy: arg.cache_strategy.clone(),
        script_timeout_ms: arg.script_timeout_ms,
        builtin: arg.builtin,
        get_query_term: arg.meta.get_query_term.clone(),
        js_get_query_term,
        ..template_generator(copy_templates(&arg.templates))
    }
}

/// The generators of an argument.
pub fn effective_generators(arg: &ArgSpec) -> (generators: Vec<Arc<GeneratorSpec>>)
    ensures
        are_effective(generators@, *arg),
{
    let mut out: Vec<Arc<GeneratorSpec>> = Vec::new();
    if arg.generators.len() == 0 {
        out.push(Arc::new(own_generator(arg)));
        return out;
    }
    let mut i: usize = 0;
    while i < arg.generators.len()
        invariant
            i <= arg.generators@.len(),
            out@ == arg.generators@.take(i as int),
        decreases arg.generators@.len() - i,
    {
        out.push(share(&arg.generators[i]));
        i += 1;
    }
    proof {
        assert(arg.generators@.take(arg.generators@.len() as int) =~= arg.generators@);
    }
    let missing = missing_templates(&arg.templates, &arg.generators);
    if missing.len() > 0 {
        out.push(Arc::new(template_generator(missing)));
        proof {
            assert(out@.drop_last() =~= arg.generators@);
        }
    }
    out
}

// ---------------------------------------------------------------------------
// The identity of an argument
// ---------------------------------------------------------------------------
/// The name of a template.
pub open spec fn template_label(template: Template) -> Seq<char> {
    match template {
        Template::Filepaths => "Filepaths"@,
        Template::Folders => "Folders"@,
        Template::History => "History"@,
    }
}

fn label_of_template(template: Template) -> (label: &'static str)
    ensures
        label@ == template_label(template),
{
    match template {
        Template::Filepaths => "Filepaths",
        Template::Folders => "Folders",
        Template::History => "History",
    }
}

/// The name of a built-in generator.
pub open spec fn builtin_label(builtin: Option<Builtin>) -> Seq<char> {
    match builtin {
        None => "None"@,
        Some(Builtin::GitRefs) => "GitRefs"@,
        Some(Builtin::GitBranches) => "GitBranches"@,
        Some(Builtin::GitTags) => "GitTags"@,
        Some(Builtin::GitCommits) => "GitCommits"@,
        Some(Builtin::GitRemotes) => "GitRemotes"@,
        Some(Builtin::GitChangedFiles) => "GitChangedFiles"@,
        Some(Builtin::GitStashes) => "GitStashes"@,
        Some(Builtin::GitAliases) => "GitAliases"@,
        Some(Builtin::NpmScripts) => "NpmScripts"@,
        Some(Builtin::NpmDeps) => "NpmDeps"@,
        Some(Builtin::Cobra) => "Cobra"@,
    }
}

fn label_of_builtin(builtin: Option<Builtin>) -> (label: &'static str)
    ensures
        label@ == builtin_label(builtin),
{
    match builtin {
        None => "None",
        Some(Builtin::GitRefs) => "GitRefs",
        Some(Builtin::GitBranches) => "GitBranches",
        Some(Builtin::GitTags) => "GitTags",
        Some(Builtin::GitCommits) => "GitCommits",
        Some(Builtin::GitRemotes) => "GitRemotes",
        Some(Builtin::GitChangedFiles) => "GitChangedFiles",
        Some(Builtin::GitStashes) => "GitStashes",
        Some(Builtin::GitAliases) => "GitAliases",
        Some(Builtin::NpmScripts) => "NpmScripts",
        Some(Builtin::NpmDeps) => "NpmDeps",
        Some(Builtin::Cobra) => "Cobra",
    }
}

/// A text, or the empty one.
pub open spec fn or_blank(text: Option<Seq<char>>) -> Seq<char> {
    match text {
        Some(text) => text,
        None => Seq::empty(),
    }
}

fn text_or_blank(text: &Option<String>) -> (out: String)
    ensures
        out@ == or_blank(opt_text(*text)),
{
    match text {
        Some(text) => text.clone(),
        None => String::new(),
    }
}

/// The names of templates.
pub open spec fn template_labels(templates: Seq<Template>) -> Seq<Seq<char>> {
    Seq::new(templates.len(), |i: int| template_label(templates[i]))
}

fn labels_of_templates(templates: &[Template]) -> (out: Vec<String>)
    ensures
        texts(out@) == template_labels(templates@),
{
    let ghost stated = template_labels(templates@);
    let mut out: Vec<String> = Vec::new();
    let mut i: usize = 0;
    proof {
        assert(texts(out@) =~= stated.take(0));
    }
    while i < templates.len()
        invariant
            i <= templates@.len(),
            stated == template_labels(templates@),
            texts(out@) == stated.take(i as int),
        decreases templates@.len() - i,
    {
        let ghost had = out@;
        out.push(label_of_template(templates[i]).to_owned());
        i += 1;
        proof {
            assert(texts(out@) =~= texts(had).push(stated[i - 1]));
            assert(stated.take(i as int) =~= stated.take(i - 1).push(stated[i - 1]));
        }
    }
    proof {
        assert(stated.take(stated.len() as int) =~= stated);
    }
    out
}

/// What tells a generator from others of the same argument.
pub open spec fn generator_label(generator: GeneratorSpec) -> Seq<char> {
    "["@ + joined(template_labels(generator.templates@), ", "@) + "]:"@ + or_blank(
        opt_text(generator.js_custom),
    ) + ":"@ + or_blank(opt_text(generator.js_script)) + ":"@ + joined(
        texts(generator.script@),
        ","@,
    )
}

fn label_of_generator(generator: &GeneratorSpec) -> (label: String)
    ensures
        label@ == generator_label(*generator),
{
    let mut label = "[".to_owned();
    label.push_str(&join(&labels_of_templates(&generator.templates), ", "));
    label.push_str("]:");
    label.push_str(&text_or_blank(&generator.js_custom));
    label.push_str(":");
    label.push_str(&text_or_blank(&generator.js_script));
    label.push_str(":");
    label.push_str(&join(&generator.script, ","));
    label
}

/// What tells generators apart.
pub open spec fn generator_labels(generators: Seq<Arc<GeneratorSpec>>) -> Seq<Seq<char>> {
    Seq::new(generators.len(), |i: int| generator_label(*generators[i]))
}

fn labels_of_generators(generators: &[Arc<GeneratorSpec>]) -> (out: Vec<String>)
    ensures
        texts(out@) == generator_labels(generators@),
{
    let ghost stated = generator_labels(generators@);
    let mut out: Vec<String> = Vec::new();
    let mut i: usize = 0;
    proof {
        assert(texts(out@) =~= stated.take(0));
    }
    while i < generators.len()
        invariant
            i <= generators@.len(),
            stated == generator_labels(generators@),
            texts(out@) == stated.take(i as int),
        decreases generators@.len() - i,
    {
        let ghost had = out@;
        out.push(label_of_generator(&generators[i]));
        i += 1;
        proof {
            assert(texts(out@) =~= texts(had).push(stated[i - 1]));
            assert(stated.take(i as int) =~= stated.take(i - 1).push(stated[i - 1]));
        }
    }
    proof {
        assert(stated.take(stated.len() as int) =~= stated);
    }
    out
}

/// The words that lead to an argument: all words behind a space, else all but
/// the one being typed.
pub open spec fn leading_words(tokens: Seq<Seq<char>>, search_term: Seq<char>) -> Seq<Seq<char>> {
    if search_term.len() == 0 || tokens.len() <= 1 {
        tokens
    } else {
        tokens.drop_last()
    }
}

/// What tells an argument at a place of the command line from others.
pub open spec fn arg_identity(
    tokens: Seq<Seq<char>>,
    arg: ArgSpec,
    cwd: Seq<char>,
    search_term: Seq<char>,
) -> Seq<char> {
    cwd + "::"@ + joined(leading_words(tokens, search_term), "\u{1f}"@) + "::"@ + arg.name@ + "::"@
        + builtin_label(arg.builtin) + "::"@ + joined(generator_labels(arg.generators@), "|"@)
        + "::"@ + or_blank(opt_text(arg.js_custom)) + "::"@ + joined(
        texts(arg.script@),
        "\u{1f}"@,
    )
}

/// Computes [`arg_identity`].
pub fn generator_arg_id(tokens: &[String], arg: &ArgSpec, cwd: &str, search_term: &str) -> (id:
    String)
    ensures
        id@ == arg_identity(texts(tokens@), *arg, cwd@, search_term@),
{
    let mut path = copy_texts(tokens);
    if !(search_term.is_empty() || tokens.len() <= 1) {
        let ghost had = path@;
        path.pop();
        proof {
            assert(texts(path@) =~= texts(tokens@).drop_last());
        }
    }
    let mut id = cwd.to_owned();
    id.push_str("::");
    id.push_str(&join(&path, "\u{1f}"));
    id.push_str("::");
    id.push_str(&arg.name);
    id.push_str("::");
    id.push_str(label_of_builtin(arg.builtin));
    id.push_str("::");
    id.push_str(&join(&labels_of_generators(&arg.generators), "|"));
    id.push_str("::");
    id.push_str(&text_or_blank(&arg.js_custom));
    id.push_str("::");
    id.push_str(&join(&arg.script, "\u{1f}"));
    id
}

// ---------------------------------------------------------------------------
// The session
// ---------------------------------------------------------------------------
/// What is kept of a generator between requests.
#[derive(Debug, Default)]
pub struct CachedGenerator {
    pub results: Vec<Suggestion>,
    /// Whether a debounced run is due.
    pub needs_run: bool,
    pub ran: bool,
}

/// What is kept of a generator between requests.
#[verifier::ext_equal]
pub struct CachedView {
    pub results: Seq<SuggestionView>,
    pub needs_run: bool,
    pub ran: bool,
}

impl View for CachedGenerator {
    type V = CachedView;

    open spec fn view(&self) -> CachedView {
        CachedView { results: rows(self.results@), needs_run: self.needs_run, ran: self.ran }
    }
}

/// What is kept of the last argument between requests.
#[derive(Debug, Default)]
pub struct GeneratorSession {
    pub arg_id: String,
    pub search_term: String,
    pub entries: Vec<CachedGenerator>,
}

/// What is kept of the last argument between requests.
#[verifier::ext_equal]
pub struct SessionView {
    pub arg_id: Seq<char>,
    pub search_term: Seq<char>,
    pub entries: Seq<CachedView>,
}

/// What is kept of generators.
pub open spec fn cached_views(entries: Seq<CachedGenerator>) -> Seq<CachedView> {
    Seq::new(entries.len(), |i: int| entries[i]@)
}

impl View for GeneratorSession {
    type V = SessionView;

    open spec fn view(&self) -> SessionView {
        SessionView {
            arg_id: self.arg_id@,
            search_term: self.search_term@,
            entries: cached_views(self.entries@),
        }
    }
}

/// What is kept of a generator that has not run.
pub open spec fn not_run() -> CachedView {
    CachedView { results: Seq::empty(), needs_run: false, ran: false }
}

/// What is kept for a number of generators: as before, those beyond it dropped,
/// and those not known yet have not run.
pub open spec fn resized(entries: Seq<CachedView>, n: nat) -> Seq<CachedView> {
    Seq::new(
        n,
        |i: int|
            if i < entries.len() {
                entries[i]
            } else {
                not_run()
            },
    )
}

/// Whether a query term comes from a rule of the generator or the argument.
pub open spec fn has_term_rule(arg: ArgSpec, generator: GeneratorSpec) -> bool {
    generator.get_query_term is Some || generator.js_get_query_term is Some
        || has_arg_term_rule(arg)
}

/// Whether the argument has a rule for the query term.
pub open spec fn has_arg_term_rule(arg: ArgSpec) -> bool {
    arg.meta.get_query_term is Some || arg.js_get_query_term is Some
        || arg.meta.js_get_query_term is Some
}

/// The term that the rows of a generator are matched against.
pub open spec fn generator_term(
    input: GenerateInput<'_>,
    arg: ArgSpec,
    generator: GeneratorSpec,
) -> Seq<char> {
    term_with_hook(
        input.search_term@,
        or_other(opt_text(generator.get_query_term), opt_text(arg.meta.get_query_term)),
        or_other(
            opt_text(generator.js_get_query_term),
            or_other(opt_text(arg.js_get_query_term), opt_text(arg.meta.js_get_query_term)),
        ),
        hooks_at_hand(input.hooks),
    )
}

/// What the trigger hook of a generator answered.
pub open spec fn trigger_answer(input: GenerateInput<'_>, i: int) -> Option<bool> {
    if 0 <= i < input.triggers@.len() {
        input.triggers@[i]
    } else {
        None
    }
}

/// What a generator does on a request.
pub enum Turn {
    /// It will run after a pause.
    Wait,
    /// Its rows are used again.
    Keep,
    /// It runs.
    Run,
}

/// Decides what a generator does.
pub open spec fn turn_of(
    input: GenerateInput<'_>,
    arg: ArgSpec,
    generator: GeneratorSpec,
    entry: CachedView,
    changed: bool,
    previous: Seq<char>,
    i: int,
) -> Turn {
    let debounce = arg.debounce_ms is Some;
    let due = triggers(
        generator.trigger,
        debounce,
        changed || !entry.ran,
        input.search_term@,
        previous,
        lists_paths(generator),
        trigger_answer(input, i),
    );
    let follow_up = debounce && !changed && entry.needs_run && previous == input.search_term@;
    if debounce && !follow_up && (due || changed) {
        Turn::Wait
    } else if !due && !follow_up {
        Turn::Keep
    } else {
        Turn::Run
    }
}

/// Where the generators of an argument have got to.
#[verifier::ext_equal]
pub struct Progress {
    pub rows: Seq<SuggestionView>,
    pub entries: Seq<CachedView>,
    pub pending: bool,
    pub at: int,
}

/// The outcome of one generator's turn.
pub open spec fn after_turn(
    input: GenerateInput<'_>,
    arg: ArgSpec,
    generator: GeneratorSpec,
    changed: bool,
    previous: Seq<char>,
    i: int,
    p: Progress,
) -> Asked<Progress> {
    let entry = p.entries[i];
    let term = generator_term(input, arg, generator);
    let ruled = has_term_rule(arg, generator);
    match turn_of(input, arg, generator, entry, changed, previous, i) {
        Turn::Wait => Asked::Done(
            Progress {
                rows: p.rows + stamped_rows(
                    if ruled {
                        Seq::empty()
                    } else {
                        matching_rows(entry.results, term, input.fuzzy)
                    },
                    term,
                    input.search_term@,
                    ruled,
                ),
                entries: p.entries.update(i, CachedView { needs_run: true, ..entry }),
                pending: true,
                at: p.at,
            },
        ),
        Turn::Keep => Asked::Done(
            Progress {
                rows: p.rows + stamped_rows(
                    matching_rows(entry.results, term, input.fuzzy),
                    term,
                    input.search_term@,
                    ruled,
                ),
                ..p
            },
        ),
        Turn::Run => match generated(input, arg, generator, term, p.at) {
            Asked::Asks(ask) => Asked::Asks(ask),
            Asked::Done((fresh, next)) => Asked::Done(
                Progress {
                    rows: p.rows + stamped_rows(fresh, term, input.search_term@, ruled),
                    entries: p.entries.update(
                        i,
                        CachedView { results: fresh, needs_run: false, ran: true },
                    ),
                    pending: p.pending,
                    at: next,
                },
            ),
        },
    }
}

/// The outcome of the first `n` generators' turns.
pub open spec fn after_turns(
    input: GenerateInput<'_>,
    arg: ArgSpec,
    generators: Seq<Arc<GeneratorSpec>>,
    changed: bool,
    previous: Seq<char>,
    start: Progress,
    n: int,
) -> Asked<Progress>
    decreases n,
{
    if n <= 0 {
        Asked::Done(start)
    } else {
        match after_turns(input, arg, generators, changed, previous, start, n - 1) {
            Asked::Asks(ask) => Asked::Asks(ask),
            Asked::Done(p) => after_turn(
                input,
                arg,
                *generators[n - 1],
                changed,
                previous,
                n - 1,
                p,
            ),
        }
    }
}

/// The term that the static rows of an argument are matched against.
pub open spec fn arg_term(input: GenerateInput<'_>, arg: ArgSpec, query: Seq<char>) -> Seq<char> {
    if has_arg_term_rule(arg) {
        term_with_hook(
            input.search_term@,
            opt_text(arg.meta.get_query_term),
            or_other(opt_text(arg.js_get_query_term), opt_text(arg.meta.js_get_query_term)),
            hooks_at_hand(input.hooks),
        )
    } else {
        query
    }
}

/// The rows of an argument, what is kept of its generators, and whether some
/// of them wait.
pub struct Generated {
    pub rows: Vec<Suggestion>,
    pub session: GeneratorSession,
    pub pending: PendingGenerators,
}

/// The rows of an argument, what is kept of its generators, and whether some
/// of them wait.
#[verifier::ext_equal]
pub struct GeneratedView {
    pub rows: Seq<SuggestionView>,
    pub session: SessionView,
    pub pending: PendingGenerators,
}

impl View for Generated {
    type V = GeneratedView;

    open spec fn view(&self) -> GeneratedView {
        GeneratedView {
            rows: rows(self.rows@),
            session: self.session@,
            pending: self.pending,
        }
    }
}

/// The pause before a debounced argument is asked again.
pub open spec fn pause(debounce_ms: Option<i64>) -> i64 {
    match debounce_ms {
        Some(ms) => if ms > 0 {
            ms
        } else {
            DEFAULT_DEBOUNCE_MS
        },
        None => DEFAULT_DEBOUNCE_MS,
    }
}

/// Whether generators wait, and for how long their argument says.
pub open spec fn waiting(pending: bool, debounce_ms: Option<i64>) -> PendingGenerators {
    if pending {
        PendingGenerators {
            waiting: true,
            debounce_ms: match debounce_ms {
                Some(ms) => ms,
                None => DEFAULT_DEBOUNCE_MS,
            },
        }
    } else {
        PendingGenerators { waiting: false, debounce_ms: 0 }
    }
}

/// The progress of an argument before its generators' turns: its static rows,
/// and what was kept where it is still the same argument.
pub open spec fn first_progress(
    input: GenerateInput<'_>,
    arg: ArgSpec,
    query: Seq<char>,
    session: SessionView,
    changed: bool,
    n: nat,
) -> Progress {
    Progress {
        rows: seed_rows(
            arg.suggestions@,
            arg.meta.is_dangerous,
            SeedQuery {
                query: arg_term(input, arg, query),
                search_term: input.search_term@,
                fuzzy: input.fuzzy,
                hooks: hooks_at_hand(input.hooks),
            },
        ),
        entries: resized(
            if changed {
                Seq::empty()
            } else {
                session.entries
            },
            n,
        ),
        pending: false,
        at: 0,
    }
}

/// The outcome of a request for the rows of an argument.
pub open spec fn rows_of_arg(
    input: GenerateInput<'_>,
    arg: ArgSpec,
    generators: Seq<Arc<GeneratorSpec>>,
    query: Seq<char>,
    session: SessionView,
) -> Asked<GeneratedView> {
    let id = arg_identity(texts(input.tokens@), arg, input.cwd@, input.search_term@);
    let changed = session.arg_id != id;
    let previous = if changed {
        Seq::empty()
    } else {
        session.search_term
    };
    let start = first_progress(input, arg, query, session, changed, generators.len());
    match after_turns(
        input,
        arg,
        generators,
        changed,
        previous,
        start,
        generators.len() as int,
    ) {
        Asked::Asks(ask) => Asked::Asks(ask),
        Asked::Done(p) => Asked::Done(
            GeneratedView {
                rows: without_duplicates(
                    stamped_rows(
                        endangered(p.rows, arg.meta.is_dangerous),
                        arg_term(input, arg, query),
                        input.search_term@,
                        has_arg_term_rule(arg),
                    ),
                ),
                session: SessionView {
                    arg_id: id,
                    search_term: input.search_term@,
                    entries: p.entries,
                },
                pending: waiting(p.pending, arg.debounce_ms),
            },
        ),
    }
}

fn copy_entry(entry: &CachedGenerator) -> (copy: CachedGenerator)
    ensures
        copy@ == entry@,
{
    CachedGenerator {
        results: copy_rows(&entry.results),
        needs_run: entry.needs_run,
        ran: entry.ran,
    }
}

fn resize_entries(entries: &[CachedGenerator], keep: bool, n: usize) -> (out: Vec<CachedGenerator>)
    ensures
        cached_views(out@) == resized(
            if keep {
                cached_views(entries@)
            } else {
                Seq::empty()
            },
            n as nat,
        ),
        out@.len() == n,
{
    let ghost had = if keep {
        cached_views(entries@)
    } else {
        Seq::empty()
    };
    let ghost stated = resized(had, n as nat);
    let mut out: Vec<CachedGenerator> = Vec::new();
    let mut i: usize = 0;
    proof {
        assert(cached_views(out@) =~= stated.take(0));
    }
    while i < n
        invariant
            i <= n,
            had == (if keep {
                cached_views(entries@)
            } else {
                Seq::empty()
            }),
            stated == resized(had, n as nat),
            cached_views(out@) == stated.take(i as int),
        decreases n - i,
    {
        let entry = if keep && i < entries.len() {
            copy_entry(&entries[i])
        } else {
            CachedGenerator { results: Vec::new(), needs_run: false, ran: false }
        };
        proof {
            assert(entry@ =~= stated[i as int]);
        }
        let ghost before = out@;
        let ghost view = entry@;
        out.push(entry);
        i += 1;
        proof {
            assert(cached_views(out@) =~= cached_views(before).push(view));
            assert(stated.take(i as int) =~= stated.take(i - 1).push(view));
        }
    }
    proof {
        assert(stated.take(n as int) =~= stated);
        assert(cached_views(out@).len() == out@.len());
    }
    out
}

fn first_of<'a>(a: &'a Option<String>, b: &'a Option<String>) -> (found: Option<&'a str>)
    ensures
        opt_str(found) == or_other(opt_text(*a), opt_text(*b)),
{
    match a {
        Some(text) => Some(text.as_str()),
        None => as_text(b),
    }
}

fn first_of_three<'a>(a: &'a Option<String>, b: &'a Option<String>, c: &'a Option<String>) -> (found:
    Option<&'a str>)
    ensures
        opt_str(found) == or_other(opt_text(*a), or_other(opt_text(*b), opt_text(*c))),
{
    match a {
        Some(text) => Some(text.as_str()),
        None => first_of(b, c),
    }
}

fn term_of_generator(input: &GenerateInput<'_>, arg: &ArgSpec, generator: &GeneratorSpec) -> (term:
    String)
    ensures
        term@ == generator_term(*input, *arg, *generator),
{
    query_term_with_hook(
        input.search_term,
        first_of(&generator.get_query_term, &arg.meta.get_query_term),
        first_of_three(
            &generator.js_get_query_term,
            &arg.js_get_query_term,
            &arg.meta.js_get_query_term,
        ),
        input.hooks,
    )
}

/// Whether a session is one of another argument.
pub open spec fn is_new_arg(session: SessionView, id: Seq<char>) -> bool {
    session.arg_id != id
}

/// The hook that decides whether a generator runs again on this request.
pub open spec fn session_hook(
    session: SessionView,
    id: Seq<char>,
    generator: GeneratorSpec,
    i: int,
) -> Option<Seq<char>> {
    let ran = !is_new_arg(session, id) && 0 <= i < session.entries.len() && session.entries[i].ran;
    deciding_hook(generator.trigger, !ran)
}

/// The search term before this request, and for each generator the hook that
/// decides whether it runs again.
pub fn trigger_hooks(
    tokens: &[String],
    arg: &ArgSpec,
    cwd: &str,
    search_term: &str,
    generators: &[Arc<GeneratorSpec>],
    session: &GeneratorSession,
) -> (out: (String, Vec<Option<String>>))
    ensures
        ({
            let id = arg_identity(texts(tokens@), *arg, cwd@, search_term@);
            &&& out.0@ == (if is_new_arg(session@, id) {
                Seq::empty()
            } else {
                session@.search_term
            })
            &&& out.1@.len() == generators@.len()
            &&& forall|i: int|
                0 <= i < generators@.len() ==> opt_text(#[trigger] out.1@[i]) == session_hook(
                    session@,
                    id,
                    *generators@[i],
                    i,
                )
        }),
{
    let id = generator_arg_id(tokens, arg, cwd, search_term);
    let changed = !same(&session.arg_id, &id);
    let previous = if changed {
        String::new()
    } else {
        session.search_term.clone()
    };
    proof {
        if changed {
            assert(previous@ =~= Seq::<char>::empty());
        }
    }
    let mut hooks: Vec<Option<String>> = Vec::new();
    let mut i: usize = 0;
    while i < generators.len()
        invariant
            i <= generators@.len(),
            hooks@.len() == i,
            changed == is_new_arg(session@, id@),
            forall|k: int|
                0 <= k < i ==> opt_text(#[trigger] hooks@[k]) == session_hook(
                    session@,
                    id@,
                    *generators@[k],
                    k,
                ),
        decreases generators@.len() - i,
    {
        let ran = !changed && i < session.entries.len() && session.entries[i].ran;
        proof {
            if !changed && i < session.entries@.len() {
                assert(session@.entries[i as int] == session.entries@[i as int]@);
            }
        }
        hooks.push(trigger_hook(&generators[i].trigger, !ran));
        i += 1;
    }
    (previous, hooks)
}

/// Where no hook decides about a generator, its turn is the same whatever the
/// hooks answered.
pub proof fn law_turns_depend_on_deciding_hooks(
    input: GenerateInput<'_>,
    other: GenerateInput<'_>,
    arg: ArgSpec,
    generators: Seq<Arc<GeneratorSpec>>,
    session: SessionView,
    previous: Seq<char>,
    i: int,
)
    requires
        0 <= i < generators.len(),
        other == (GenerateInput { triggers: other.triggers, ..input }),
        ({
            let id = arg_identity(texts(input.tokens@), arg, input.cwd@, input.search_term@);
            session_hook(session, id, *generators[i], i) is None
        }),
    ensures
        ({
            let id = arg_identity(texts(input.tokens@), arg, input.cwd@, input.search_term@);
            let changed = is_new_arg(session, id);
            let kept: Seq<CachedView> = if changed {
                Seq::empty()
            } else {
                session.entries
            };
            let entry = resized(kept, generators.len())[i];
            turn_of(input, arg, *generators[i], entry, changed, previous, i) == turn_of(
                other,
                arg,
                *generators[i],
                entry,
                changed,
                previous,
                i,
            )
        }),
{
    let id = arg_identity(texts(input.tokens@), arg, input.cwd@, input.search_term@);
    let changed = is_new_arg(session, id);
    let kept: Seq<CachedView> = if changed {
        Seq::empty()
    } else {
        session.entries
    };
    let entry = resized(kept, generators.len())[i];
    let generator = *generators[i];
    law_only_deciding_hooks_count(
        generator.trigger,
        arg.debounce_ms is Some,
        changed || !entry.ran,
        input.search_term@,
        previous,
        lists_paths(generator),
        trigger_answer(input, i),
    );
    law_only_deciding_hooks_count(
        generator.trigger,
        arg.debounce_ms is Some,
        changed || !entry.ran,
        input.search_term@,
        previous,
        lists_paths(generator),
        trigger_answer(other, i),
    );
}

/// A hook on its own, where there is one.
pub open spec fn one_hook(separator: Option<Seq<char>>, hook: Option<Seq<char>>) -> Seq<Seq<char>> {
    match hook_in_use(separator, hook) {
        Some(hook) => seq![hook],
        None => Seq::empty(),
    }
}

/// The hooks that the terms of the first `n` generators depend on.
pub open spec fn generator_hooks(
    arg: ArgSpec,
    generators: Seq<Arc<GeneratorSpec>>,
    n: int,
) -> Seq<Seq<char>>
    decreases n,
{
    if n <= 0 {
        Seq::empty()
    } else {
        let generator = *generators[n - 1];
        generator_hooks(arg, generators, n - 1) + one_hook(
            or_other(opt_text(generator.get_query_term), opt_text(arg.meta.get_query_term)),
            or_other(
                opt_text(generator.js_get_query_term),
                or_other(opt_text(arg.js_get_query_term), opt_text(arg.meta.js_get_query_term)),
            ),
        )
    }
}

/// The hooks that the terms of the first `n` static suggestions depend on.
pub open spec fn seed_hooks(seeds: Seq<SuggestionSeed>, n: int) -> Seq<Seq<char>>
    decreases n,
{
    if n <= 0 {
        Seq::empty()
    } else {
        let meta = seeds[n - 1].meta;
        seed_hooks(seeds, n - 1) + one_hook(
            opt_text(meta.get_query_term),
            opt_text(meta.js_get_query_term),
        )
    }
}

/// The hooks that the terms of an argument's rows depend on: its own, those of
/// its generators and those of its static suggestions. A hook can occur more
/// than once.
pub open spec fn term_hooks(arg: ArgSpec, generators: Seq<Arc<GeneratorSpec>>) -> Seq<Seq<char>> {
    one_hook(
        opt_text(arg.meta.get_query_term),
        or_other(opt_text(arg.js_get_query_term), opt_text(arg.meta.js_get_query_term)),
    ) + generator_hooks(arg, generators, generators.len() as int) + seed_hooks(
        arg.suggestions@,
        arg.suggestions@.len() as int,
    )
}

fn add_hook(out: &mut Vec<String>, separator: Option<&str>, hook: Option<&str>)
    ensures
        texts(final(out)@) == texts(old(out)@) + one_hook(opt_str(separator), opt_str(hook)),
{
    let ghost had = texts(out@);
    let ghost added = one_hook(opt_str(separator), opt_str(hook));
    if let Some(hook) = hook_to_run(separator, hook) {
        out.push(hook.to_owned());
    }
    proof {
        assert(texts(out@) =~= had + added);
    }
}

/// Computes [`term_hooks`].
pub fn query_term_hooks(arg: &ArgSpec, generators: &[Arc<GeneratorSpec>]) -> (out: Vec<String>)
    ensures
        texts(out@) == term_hooks(*arg, generators@),
{
    let mut out: Vec<String> = Vec::new();
    let ghost own = one_hook(
        opt_text(arg.meta.get_query_term),
        or_other(opt_text(arg.js_get_query_term), opt_text(arg.meta.js_get_query_term)),
    );
    add_hook(
        &mut out,
        as_text(&arg.meta.get_query_term),
        first_of(&arg.js_get_query_term, &arg.meta.js_get_query_term),
    );
    proof {
        assert(texts(out@) =~= own);
        assert(own + generator_hooks(*arg, generators@, 0) =~= own);
    }
    let mut i: usize = 0;
    while i < generators.len()
        invariant
            i <= generators@.len(),
            texts(out@) == own + generator_hooks(*arg, generators@, i as int),
        decreases generators@.len() - i,
    {
        let ghost had = generator_hooks(*arg, generators@, i as int);
        let generator = &generators[i];
        add_hook(
            &mut out,
            first_of(&generator.get_query_term, &arg.meta.get_query_term),
            first_of_three(
                &generator.js_get_query_term,
                &arg.js_get_query_term,
                &arg.meta.js_get_query_term,
            ),
        );
        i += 1;
        proof {
            assert(texts(out@) =~= own + generator_hooks(*arg, generators@, i as int));
        }
    }
    let ghost first = own + generator_hooks(*arg, generators@, generators@.len() as int);
    let mut j: usize = 0;
    proof {
        assert(first + seed_hooks(arg.suggestions@, 0) =~= first);
    }
    while j < arg.suggestions.len()
        invariant
            j <= arg.suggestions@.len(),
            texts(out@) == first + seed_hooks(arg.suggestions@, j as int),
        decreases arg.suggestions@.len() - j,
    {
        let meta = &arg.suggestions[j].meta;
        add_hook(&mut out, as_text(&meta.get_query_term), as_text(&meta.js_get_query_term));
        j += 1;
        proof {
            assert(texts(out@) =~= first + seed_hooks(arg.suggestions@, j as int));
        }
    }
    out
}

fn decide_turn(
    input: &GenerateInput<'_>,
    arg: &ArgSpec,
    generator: &GeneratorSpec,
    entry: &CachedGenerator,
    changed: bool,
    previous: &str,
    i: usize,
) -> (turn: Turn)
    ensures
        turn == turn_of(*input, *arg, *generator, entry@, changed, previous@, i as int),
{
    let debounce = arg.debounce_ms.is_some();
    let answer: Option<bool> = if i < input.triggers.len() {
        input.triggers[i]
    } else {
        None
    };
    let trigger: Option<&GeneratorTrigger> = match &generator.trigger {
        Some(trigger) => Some(trigger),
        None => None,
    };
    let due = should_trigger(
        trigger,
        debounce,
        changed || !entry.ran,
        input.search_term,
        previous,
        generator_lists_paths(generator),
        answer,
    );
    let follow_up = debounce && !changed && entry.needs_run && same(previous, input.search_term);
    if debounce && !follow_up && (due || changed) {
        Turn::Wait
    } else if !due && !follow_up {
        Turn::Keep
    } else {
        Turn::Run
    }
}

fn rule_for_arg(arg: &ArgSpec) -> (yes: bool)
    ensures
        yes == has_arg_term_rule(*arg),
{
    arg.meta.get_query_term.is_some() || arg.js_get_query_term.is_some()
        || arg.meta.js_get_query_term.is_some()
}

/// Where the generators of an argument have got to.
struct Running {
    rows: Vec<Suggestion>,
    entries: Vec<CachedGenerator>,
    pending: bool,
    at: usize,
}

impl Running {
    spec fn progress(&self) -> Progress {
        Progress {
            rows: rows(self.rows@),
            entries: cached_views(self.entries@),
            pending: self.pending,
            at: self.at as int,
        }
    }
}

/// Takes one generator's turn.
fn take_turn(
    input: &GenerateInput<'_>,
    arg: &ArgSpec,
    generator: &GeneratorSpec,
    changed: bool,
    previous: &str,
    i: usize,
    state: Running,
) -> (out: Result<Running, Ask>)
    requires
        i < state.entries@.len(),
        state.at <= input.replies@.len(),
    ensures
        match out {
            Ok(next) => after_turn(
                *input,
                *arg,
                *generator,
                changed,
                previous@,
                i as int,
                state.progress(),
            ) == Asked::Done(next.progress()) && next.at <= input.replies@.len()
                && next.entries@.len() == state.entries@.len(),
            Err(ask) => after_turn(
                *input,
                *arg,
                *generator,
                changed,
                previous@,
                i as int,
                state.progress(),
            ) == Asked::<Progress>::Asks(ask@),
        },
{
    let ghost start = state.progress();
    let term = term_of_generator(input, arg, generator);
    let ruled = generator.get_query_term.is_some() || generator.js_get_query_term.is_some()
        || rule_for_arg(arg);
    let turn = decide_turn(input, arg, generator, &state.entries[i], changed, previous, i);
    let mut out = state.rows;
    let mut entries = state.entries;
    let mut pending = state.pending;
    let mut at: usize = state.at;
    let mut fresh: Vec<Suggestion> = Vec::new();
    proof {
        assert(rows(fresh@) =~= Seq::<SuggestionView>::empty());
        assert(start.entries[i as int] == entries@[i as int]@);
    }
    match turn {
        Turn::Wait => {
            if !ruled {
                fresh = refilter_generated(&entries[i].results, &term, input.fuzzy);
            }
            let waiting = CachedGenerator { needs_run: true, ..copy_entry(&entries[i]) };
            let ghost view = waiting@;
            proof {
                assert(view =~= (CachedView { needs_run: true, ..start.entries[i as int] }));
            }
            entries.set(i, waiting);
            pending = true;
            proof {
                assert(cached_views(entries@) =~= start.entries.update(i as int, view));
            }
        },
        Turn::Keep => {
            fresh = refilter_generated(&entries[i].results, &term, input.fuzzy);
        },
        Turn::Run => match generate_from_generator(input, arg, generator, &term, at) {
            Err(ask) => {
                return Err(ask);
            },
            Ok((found, next)) => {
                let ran = CachedGenerator {
                    results: copy_rows(&found),
                    needs_run: false,
                    ran: true,
                };
                let ghost view = ran@;
                entries.set(i, ran);
                proof {
                    assert(cached_views(entries@) =~= start.entries.update(i as int, view));
                }
                fresh = found;
                at = next;
            },
        },
    }
    stamp_query_term(&mut fresh, &term, input.search_term, ruled);
    extend_rows(&mut out, fresh);
    Ok(Running { rows: out, entries, pending, at })
}

proof fn lemma_turns_stop(
    input: GenerateInput<'_>,
    arg: ArgSpec,
    generators: Seq<Arc<GeneratorSpec>>,
    changed: bool,
    previous: Seq<char>,
    start: Progress,
    m: int,
    n: int,
)
    requires
        m <= n,
        after_turns(input, arg, generators, changed, previous, start, m) is Asks,
    ensures
        after_turns(input, arg, generators, changed, previous, start, n) == after_turns(
            input,
            arg,
            generators,
            changed,
            previous,
            start,
            m,
        ),
    decreases n - m,
{
    if m < n {
        lemma_turns_stop(input, arg, generators, changed, previous, start, m, n - 1);
    }
}

/// A request of a generator, and which one asks.
pub struct GeneratorAsk {
    pub generator: Arc<GeneratorSpec>,
    pub ask: Ask,
}

/// Computes [`rows_of_arg`] for given generators.
pub fn generate_with(
    input: &GenerateInput<'_>,
    arg: &ArgSpec,
    generators: &[Arc<GeneratorSpec>],
    query: &str,
    session: &GeneratorSession,
) -> (out: Result<Generated, GeneratorAsk>)
    ensures
        match out {
            Ok(done) => rows_of_arg(*input, *arg, generators@, query@, session@) == Asked::Done(
                done@,
            ),
            Err(asked) => rows_of_arg(*input, *arg, generators@, query@, session@) == Asked::<
                GeneratedView,
            >::Asks(asked.ask@) && generators@.contains(asked.generator),
        },
{
    let id = generator_arg_id(input.tokens, arg, input.cwd, input.search_term);
    let changed = !same(&session.arg_id, &id);
    let previous = if changed {
        String::new()
    } else {
        session.search_term.clone()
    };
    let term = if rule_for_arg(arg) {
        query_term_with_hook(
            input.search_term,
            as_text(&arg.meta.get_query_term),
            first_of(&arg.js_get_query_term, &arg.meta.js_get_query_term),
            input.hooks,
        )
    } else {
        query.to_owned()
    };
    let seeds = generate_static_seeds(arg, &term, input.search_term, input.fuzzy, input.hooks);
    let entries = resize_entries(&session.entries, !changed, generators.len());
    let mut state = Running { rows: seeds, entries, pending: false, at: 0 };
    let ghost start = state.progress();
    let ghost spoken = previous@;
    proof {
        assert(start =~= first_progress(
            *input,
            *arg,
            query@,
            session@,
            changed,
            generators@.len(),
        ));
        assert(previous@ =~= if changed {
            Seq::empty()
        } else {
            session@.search_term
        });
    }
    let n = generators.len();
    let mut i: usize = 0;
    while i < n
        invariant
            i <= n,
            n == generators@.len(),
            state.entries@.len() == n,
            state.at <= input.replies@.len(),
            spoken == previous@,
            after_turns(*input, *arg, generators@, changed, spoken, start, i as int)
                == Asked::Done(state.progress()),
            after_turns(*input, *arg, generators@, changed, spoken, start, n as int) matches Asked::Asks(
                ask,
            ) ==> rows_of_arg(*input, *arg, generators@, query@, session@) == Asked::<
                GeneratedView,
            >::Asks(ask),
        decreases n - i,
    {
        let generator = &generators[i];
        match take_turn(input, arg, generator, changed, &previous, i, state) {
            Err(ask) => {
                proof {
                    assert(after_turns(
                        *input,
                        *arg,
                        generators@,
                        changed,
                        spoken,
                        start,
                        i + 1,
                    ) == Asked::<Progress>::Asks(ask@));
                    lemma_turns_stop(
                        *input,
                        *arg,
                        generators@,
                        changed,
                        spoken,
                        start,
                        i + 1,
                        n as int,
                    );
                    assert(generators@[i as int] == *generator);
                }
                return Err(GeneratorAsk { generator: share(generator), ask });
            },
            Ok(next) => {
                state = next;
            },
        }
        i += 1;
    }
    let mut out = state.rows;
    mark_dangerous(&mut out, arg.meta.is_dangerous);
    stamp_query_term(&mut out, &term, input.search_term, rule_for_arg(arg));
    dedup_suggestions(&mut out);
    let pending = if state.pending {
        PendingGenerators {
            waiting: true,
            debounce_ms: match arg.debounce_ms {
                Some(ms) => ms,
                None => DEFAULT_DEBOUNCE_MS,
            },
        }
    } else {
        PendingGenerators { waiting: false, debounce_ms: 0 }
    };
    Ok(
        Generated {
            rows: out,
            session: GeneratorSession {
                arg_id: id,
                search_term: input.search_term.to_owned(),
                entries: state.entries,
            },
            pending,
        },
    )
}

/// The rows of an argument from its static rows and its generators, or the
/// request that has to be answered first.
pub fn generate_for_arg_with_history(
    input: &GenerateInput<'_>,
    arg: &ArgSpec,
    query: &str,
    session: &GeneratorSession,
) -> (out: Result<Generated, GeneratorAsk>)
    ensures
        exists|generators: Seq<Arc<GeneratorSpec>>| #[trigger]
            are_effective(generators, *arg) && match out {
                Ok(done) => rows_of_arg(*input, *arg, generators, query@, session@) == Asked::Done(
                    done@,
                ),
                Err(asked) => rows_of_arg(*input, *arg, generators, query@, session@) == Asked::<
                    GeneratedView,
                >::Asks(asked.ask@) && generators.contains(asked.generator),
            },
{
    let generators = effective_generators(arg);
    let out = generate_with(input, arg, &generators, query, session);
    proof {
        assert(are_effective(generators@, *arg));
    }
    out
}

// ---------------------------------------------------------------------------
// Waiting generators
// ---------------------------------------------------------------------------
/// Whether generators wait, and for how long their argument says.
#[derive(Debug, Clone, Copy, PartialEq, Eq, Structural)]
pub struct PendingGenerators {
    pub waiting: bool,
    pub debounce_ms: i64,
}

/// Says once whether generators wait, and for how many milliseconds; a pause
/// that is not positive stands for the default.
pub fn take_pending_generators(pending: &mut PendingGenerators) -> (taken: (bool, Option<i64>))
    ensures
        *final(pending) == (PendingGenerators { waiting: false, debounce_ms: 0 }),
        taken.0 == old(pending).waiting,
        taken.1 == if old(pending).waiting {
            Some(pause(Some(old(pending).debounce_ms)))
        } else {
            None
        },
{
    let seen = *pending;
    *pending = PendingGenerators { waiting: false, debounce_ms: 0 };
    if seen.waiting {
        (
            true,
            Some(
                if seen.debounce_ms > 0 {
                    seen.debounce_ms
                } else {
                    DEFAULT_DEBOUNCE_MS
                },
            ),
        )
    } else {
        (false, None)
    }
}

// ---------------------------------------------------------------------------
// From a spec
// ---------------------------------------------------------------------------
/// What is needed before the rows of a command's argument are known.
pub enum GenerateNeed {
    Spec(Need),
    Generator(GeneratorAsk),
}

/// The argument that the rows of a command are made for: the one under the
/// caret, else the first of the command.
pub open spec fn argument_in(context: ContextView, spec: Spec, query: Seq<char>) -> Option<ActiveView> {
    match context.active {
        Some(active) => Some(active),
        None => if spec.args@.len() > 0 {
            Some(
                ActiveView {
                    arg: spec.args@[0],
                    query,
                    search_term: query,
                    exclusive: false,
                },
            )
        } else {
            None
        },
    }
}

/// The same input with another search term.
pub open spec fn with_term<'a>(input: GenerateInput<'a>, term: &'a str) -> GenerateInput<'a> {
    GenerateInput { search_term: term, ..input }
}

/// The rows of the argument that a command line has got to. A word that begins
/// with a dash, and a command without arguments, give none.
pub fn generate(
    input: &GenerateInput<'_>,
    answers: &SpecAnswers,
    spec: &Arc<Spec>,
    query: &str,
    session: &GeneratorSession,
) -> (out: Result<Option<Generated>, GenerateNeed>)
    ensures
        begins_with(query@, "-"@) ==> out == Ok::<Option<Generated>, GenerateNeed>(None),
        !begins_with(query@, "-"@) ==> match context_of(
            *answers,
            *spec,
            texts(input.tokens@),
            query@.len() == 0,
            query@,
            query@,
        ) {
            Walked::Needs(need) => out matches Err(GenerateNeed::Spec(asked)) && asked@ == need,
            Walked::Done(context) => match argument_in(context, **spec, query@) {
                None => out == Ok::<Option<Generated>, GenerateNeed>(None),
                Some(active) => exists|term: &str, generators: Seq<Arc<GeneratorSpec>>|
                    term@ == active.search_term && #[trigger] are_effective(
                        generators,
                        *active.arg,
                    ) && match out {
                        Ok(Some(done)) => #[trigger] rows_of_arg(
                            with_term(*input, term),
                            *active.arg,
                            generators,
                            active.query,
                            session@,
                        ) == Asked::Done(done@),
                        Err(GenerateNeed::Generator(asked)) => rows_of_arg(
                            with_term(*input, term),
                            *active.arg,
                            generators,
                            active.query,
                            session@,
                        ) == Asked::<GeneratedView>::Asks(asked.ask@),
                        _ => false,
                    },
            },
        },
{
    if starts_with(query, "-") {
        return Ok(None);
    }
    let context = match resolve_context(
        answers,
        share(spec),
        input.tokens,
        query.is_empty(),
        query,
        query,
    ) {
        Err(need) => {
            return Err(GenerateNeed::Spec(need));
        },
        Ok(context) => context,
    };
    let active = match context.active_arg {
        Some(active) => active,
        None => {
            if spec.args.len() == 0 {
                return Ok(None);
            }
            ActiveArg {
                arg: share(&spec.args[0]),
                query: query.to_owned(),
                search_term: query.to_owned(),
                exclusive: false,
            }
        },
    };
    let inner = GenerateInput {
        tokens: input.tokens,
        search_term: active.search_term.as_str(),
        cwd: input.cwd,
        fuzzy: input.fuzzy,
        history_values: input.history_values,
        configured_timeout_ms: input.configured_timeout_ms,
        host_cwd: input.host_cwd,
        hooks: input.hooks,
        environment: input.environment,
        places: input.places,
        triggers: input.triggers,
        replies: input.replies,
    };
    let generators = effective_generators(&active.arg);
    proof {
        assert(inner == with_term(*input, inner.search_term));
        assert(are_effective(generators@, *active.arg));
    }
    match generate_with(&inner, &active.arg, &generators, &active.query, session) {
        Ok(done) => {
            proof {
                assert(rows_of_arg(
                    with_term(*input, inner.search_term),
                    *active@.arg,
                    generators@,
                    active@.query,
                    session@,
                ) == Asked::Done(done@));
            }
            Ok(Some(done))
        },
        Err(asked) => {
            proof {
                assert(rows_of_arg(
                    with_term(*input, inner.search_term),
                    *active@.arg,
                    generators@,
                    active@.query,
                    session@,
                ) == Asked::<GeneratedView>::Asks(asked.ask@));
            }
            Err(GenerateNeed::Generator(asked))
        },
    }
}

// ---------------------------------------------------------------------------
// Laws
// ---------------------------------------------------------------------------
proof fn lemma_turns_wait(
    input: GenerateInput<'_>,
    arg: ArgSpec,
    generators: Seq<Arc<GeneratorSpec>>,
    previous: Seq<char>,
    start: Progress,
    n: int,
)
    requires
        arg.debounce_ms is Some,
        0 <= n <= generators.len(),
        start.entries.len() == generators.len(),
    ensures
        after_turns(input, arg, generators, true, previous, start, n) matches Asked::Done(p) && p.at
            == start.at && p.pending == (start.pending || n > 0) && p.entries.len()
            == start.entries.len() && forall|i: int|
            0 <= i < n ==> (#[trigger] p.entries[i]).needs_run,
    decreases n,
{
    if n > 0 {
        lemma_turns_wait(input, arg, generators, previous, start, n - 1);
    }
}

/// A debounced argument asks nothing when it is first reached: its generators
/// wait, and the pause is handed out.
pub proof fn law_debounced_arguments_wait(
    input: GenerateInput<'_>,
    arg: ArgSpec,
    generators: Seq<Arc<GeneratorSpec>>,
    query: Seq<char>,
    session: SessionView,
)
    requires
        arg.debounce_ms is Some,
        generators.len() > 0,
        session.arg_id != arg_identity(texts(input.tokens@), arg, input.cwd@, input.search_term@),
    ensures
        rows_of_arg(input, arg, generators, query, session) matches Asked::Done(done)
            && done.pending.waiting && forall|i: int|
            0 <= i < generators.len() ==> (#[trigger] done.session.entries[i]).needs_run,
{
    let start = first_progress(input, arg, query, session, true, generators.len());
    lemma_turns_wait(input, arg, generators, Seq::empty(), start, generators.len() as int);
}

/// A generator that waited runs when the same term comes again.
pub proof fn law_waiting_generators_run_next(
    input: GenerateInput<'_>,
    arg: ArgSpec,
    generator: GeneratorSpec,
    entry: CachedView,
    i: int,
)
    requires
        arg.debounce_ms is Some,
        entry.needs_run,
    ensures
        turn_of(input, arg, generator, entry, false, input.search_term@, i) is Run,
{
}

/// What a generator gave is used again while nothing makes it run: the same
/// term with the same argument asks nothing new.
pub proof fn law_kept_rows_are_used_again(
    input: GenerateInput<'_>,
    arg: ArgSpec,
    generator: GeneratorSpec,
    entry: CachedView,
    i: int,
)
    requires
        arg.debounce_ms is None,
        entry.ran,
        generator.trigger matches Some(rule) ==> rule.on@ != "function"@,
    ensures
        turn_of(input, arg, generator, entry, false, input.search_term@, i) is Keep,
{
}

/// The rows of an argument hold no suggestion twice.
pub proof fn law_argument_rows_are_distinct(
    input: GenerateInput<'_>,
    arg: ArgSpec,
    generators: Seq<Arc<GeneratorSpec>>,
    query: Seq<char>,
    session: SessionView,
)
    ensures
        rows_of_arg(input, arg, generators, query, session) matches Asked::Done(done) ==> forall|
            i: int,
            j: int,
        |
            #![trigger done.rows[i], done.rows[j]]
            0 <= i < j < done.rows.len() ==> !same_suggestion(done.rows[i], done.rows[j]),
{
    let id = arg_identity(texts(input.tokens@), arg, input.cwd@, input.search_term@);
    let changed = session.arg_id != id;
    let previous = if changed {
        Seq::empty()
    } else {
        session.search_term
    };
    let start = first_progress(input, arg, query, session, changed, generators.len());
    if let Asked::Done(p) = after_turns(
        input,
        arg,
        generators,
        changed,
        previous,
        start,
        generators.len() as int,
    ) {
        law_suggestions_are_distinct(
            stamped_rows(
                endangered(p.rows, arg.meta.is_dangerous),
                arg_term(input, arg, query),
                input.search_term@,
                has_arg_term_rule(arg),
            ),
        );
    }
}

proof fn lemma_turns_stand(
    input: GenerateInput<'_>,
    later: GenerateInput<'_>,
    arg: ArgSpec,
    generators: Seq<Arc<GeneratorSpec>>,
    changed: bool,
    previous: Seq<char>,
    start: Progress,
    n: int,
)
    requires
        0 <= start.at,
        n <= generators.len(),
        continues(later.replies@, input.replies@),
        later == (GenerateInput { replies: later.replies, ..input }),
        after_turns(input, arg, generators, changed, previous, start, n) is Done,
    ensures
        after_turns(later, arg, generators, changed, previous, start, n) == after_turns(
            input,
            arg,
            generators,
            changed,
            previous,
            start,
            n,
        ),
        after_turns(input, arg, generators, changed, previous, start, n)->Done_0.at >= 0,
    decreases n,
{
    if n > 0 {
        lemma_turns_stand(input, later, arg, generators, changed, previous, start, n - 1);
        if let Asked::Done(p) = after_turns(
            input,
            arg,
            generators,
            changed,
            previous,
            start,
            n - 1,
        ) {
            let generator = *generators[n - 1];
            let term = generator_term(input, arg, generator);
            if turn_of(input, arg, generator, p.entries[n - 1], changed, previous, n - 1) is Run {
                law_finished_generators_stand(input, later, arg, generator, term, p.at);
            }
        }
    }
}

/// The rows of an argument stay as they are when further replies come in.
pub proof fn law_finished_rows_stand(
    input: GenerateInput<'_>,
    later: GenerateInput<'_>,
    arg: ArgSpec,
    generators: Seq<Arc<GeneratorSpec>>,
    query: Seq<char>,
    session: SessionView,
)
    requires
        continues(later.replies@, input.replies@),
        later == (GenerateInput { replies: later.replies, ..input }),
        rows_of_arg(input, arg, generators, query, session) is Done,
    ensures
        rows_of_arg(later, arg, generators, query, session) == rows_of_arg(
            input,
            arg,
            generators,
            query,
            session,
        ),
{
    let id = arg_identity(texts(input.tokens@), arg, input.cwd@, input.search_term@);
    let changed = session.arg_id != id;
    let previous = if changed {
        Seq::empty()
    } else {
        session.search_term
    };
    let start = first_progress(input, arg, query, session, changed, generators.len());
    lemma_turns_stand(
        input,
        later,
        arg,
        generators,
        changed,
        previous,
        start,
        generators.len() as int,
    );
}

} // verus!
