//! The engine: from a request to ranked rows.
use std::sync::Arc;
use vstd::prelude::*;

use crate::generate::run::{GeneratorSession, SessionView};
use crate::history::{HistoryStore, StoreView};
use crate::ir::Spec;
use crate::lookup::complete::{
    complete, completed, effective_fuzzy_for_tokens, fuzzy_at, is_completed, typed_in,
    CompleteAnswers, Completed, Missing, MissingView, Typed,
};
use crate::lookup::shell::{completion_buffer, completion_text, current_token_raw, tokenize};
use crate::lookup::walk::{extends, lemma_answer_kept, spec_answer, SpecAnswers, Walked};
use crate::rank::acceptance::{is_recorded, recorded, AcceptanceIndex};
use crate::rank::frecency::{firsts, history_rows, kept_commands, timed, Frecency};
use crate::rank::history::{
    buffer_beginning, history_prefix_from_buffer, merge_history_with_prefix, merged_rows,
};
use crate::rank::order::{apply_with_acceptance, ranked_result, ranking_for};
use crate::rank::source::{is_same_source, same_source, HistorySourceConfig};
use crate::registry::{
    cached, entry_at, file_of, inserted, prepared, touched, with_name, LoadStep, Registry,
    RegistryView,
};
use crate::runtime::{
    history_loading_enabled, make_result, plain_result, ranking_root_command, root_command, rows,
    should_merge_history, CompleteRequest, CompleteResult, ResultView, Suggestion, SuggestionView,
};
use crate::settings::Settings;
use crate::text::texts;

verus! {

// ---------------------------------------------------------------------------
// Requests
// ---------------------------------------------------------------------------
/// The rows of history alone for what is typed.
pub open spec fn history_only(
    answers: SpecAnswers,
    request: CompleteRequest,
    disabled: bool,
    history: Seq<Seq<char>>,
) -> Walked<ResultView> {
    let text = completion_text(request.buffer@, request.cursor);
    let typed = typed_in(text);
    match fuzzy_at(answers, request.fuzzy, typed) {
        Walked::Needs(need) => Walked::Needs(need),
        Walked::Done(fuzzy) => if disabled {
            Walked::Done(plain_result(Seq::empty(), fuzzy, typed.raw, Seq::empty()))
        } else {
            let beginning = match buffer_beginning(text, typed.gap, typed.tokens) {
                Some(beginning) => beginning,
                None => Seq::empty(),
            };
            Walked::Done(
                plain_result(
                    history_rows(history, beginning, typed.term, fuzzy),
                    fuzzy,
                    typed.raw,
                    typed.term,
                ),
            )
        },
    }
}

/// A result with the rows of history behind its own.
pub open spec fn with_history(
    result: ResultView,
    text: Seq<char>,
    typed: Typed,
    history: Seq<Seq<char>>,
) -> ResultView {
    ResultView {
        suggestions: merged_rows(
            result,
            typed.tokens,
            buffer_beginning(text, typed.gap, typed.tokens),
            history,
            result.fuzzy,
        ),
        ..result
    }
}

/// A result with its rows in order.
pub open spec fn in_order(
    result: ResultView,
    tokens: Seq<Seq<char>>,
    history: Seq<Seq<char>>,
    acceptances: Seq<(Seq<char>, Seq<char>, u64)>,
    root: Seq<char>,
    alphabetical: bool,
) -> ResultView {
    ResultView {
        suggestions: ranked_result(
            result.suggestions,
            ranking_for(result, tokens, history, acceptances, root, alphabetical),
        ),
        ..result
    }
}

/// The outcome of a request. History that must not be loaded counts neither as
/// rows nor for their order, even where it was loaded before.
pub open spec fn answered(
    names: Seq<Seq<char>>,
    request: CompleteRequest,
    settings: Settings,
    answers: CompleteAnswers,
    history: Seq<Seq<char>>,
    acceptances: Seq<(Seq<char>, Seq<char>, u64)>,
) -> Completed {
    let text = completion_text(request.buffer@, request.cursor);
    let typed = typed_in(text);
    let known: Seq<Seq<char>> = if settings.disable_history {
        Seq::empty()
    } else {
        history
    };
    if request.history_only {
        match history_only(answers.specs, request, settings.disable_history, history) {
            Walked::Needs(need) => Completed::Misses(MissingView::Spec(need)),
            Walked::Done(result) => Completed::Done(result),
        }
    } else {
        match completed(names, request, settings, answers) {
            Completed::Misses(missing) => Completed::Misses(missing),
            Completed::Done(result) => {
                let merged = if request.include_history && !settings.disable_history {
                    with_history(result, text, typed, history)
                } else {
                    result
                };
                Completed::Done(
                    in_order(
                        merged,
                        typed.tokens,
                        known,
                        acceptances,
                        root_command(request.buffer@, request.cursor),
                        settings.alphabetical,
                    ),
                )
            },
        }
    }
}

/// Computes [`history_only`].
pub fn complete_history(
    request: &CompleteRequest,
    disabled: bool,
    answers: &SpecAnswers,
    frecency: &Frecency,
) -> (out: Result<CompleteResult, Missing>)
    requires
        frecency.valid(),
    ensures
        match out {
            Ok(result) => history_only(*answers, *request, disabled, firsts(frecency@))
                == Walked::Done(result@),
            Err(missing) => missing matches Missing::Spec(need) && history_only(
                *answers,
                *request,
                disabled,
                firsts(frecency@),
            ) == Walked::<ResultView>::Needs(need@),
        },
{
    let text = completion_buffer(&request.buffer, request.cursor);
    let (tokens, gap) = tokenize(text);
    proof {
        assert(texts(tokens@).len() == tokens@.len());
        if tokens@.len() > 0 {
            assert(texts(tokens@).last() == tokens@.last()@);
        }
    }
    let raw = if gap {
        String::new()
    } else {
        current_token_raw(text)
    };
    let term = if gap || tokens.len() == 0 {
        String::new()
    } else {
        tokens[tokens.len() - 1].clone()
    };
    let ghost typed = typed_in(text@);
    proof {
        assert(raw@ =~= typed.raw);
        assert(term@ =~= typed.term);
    }
    let fuzzy = match effective_fuzzy_for_tokens(
        answers,
        request.fuzzy,
        &tokens,
        gap,
        &term,
        &raw,
    ) {
        Err(need) => {
            return Err(Missing::Spec(need));
        },
        Ok(fuzzy) => fuzzy,
    };
    if disabled {
        let none: Vec<Suggestion> = Vec::new();
        let blank = String::new();
        proof {
            assert(rows(none@) =~= Seq::<SuggestionView>::empty());
            assert(blank@ =~= Seq::<char>::empty());
        }
        return Ok(make_result(none, fuzzy, raw, blank));
    }
    let suggestions = match history_prefix_from_buffer(text, gap, &tokens) {
        Some(beginning) => frecency.history_suffix_suggestions(&beginning, &term, fuzzy),
        None => frecency.history_suggestions(&term, fuzzy, true),
    };
    Ok(make_result(suggestions, fuzzy, raw, term))
}

// ---------------------------------------------------------------------------
// The engine
// ---------------------------------------------------------------------------
/// What completion keeps between requests.
pub struct Engine {
    registry: Registry,
    frecency: Frecency,
    acceptance: AcceptanceIndex,
    frecency_loaded: bool,
    history_source: Option<HistorySourceConfig>,
    history: HistoryStore,
    generator_session: GeneratorSession,
}

/// What completion keeps between requests.
pub struct EngineView {
    pub registry: RegistryView,
    /// The commands of history, in the order of loading.
    pub history: Seq<(Seq<char>, u64)>,
    pub acceptance: Seq<(Seq<char>, Seq<char>, u64)>,
    pub history_loaded: bool,
    pub history_source: Option<HistorySourceConfig>,
    /// The argument values in history.
    pub store: StoreView,
    pub session: SessionView,
}

impl View for Engine {
    type V = EngineView;

    closed spec fn view(&self) -> EngineView {
        EngineView {
            registry: self.registry@,
            history: self.frecency@,
            acceptance: self.acceptance@,
            history_loaded: self.frecency_loaded,
            history_source: self.history_source,
            store: self.history@,
            session: self.generator_session@,
        }
    }
}

/// A store of history lines of which nothing is indexed.
pub open spec fn fresh_store(history: Seq<(Seq<char>, u64)>) -> StoreView {
    StoreView { lines: firsts(history), index: Seq::empty() }
}

/// A session in which nothing ran.
pub open spec fn fresh_session() -> SessionView {
    SessionView { arg_id: Seq::empty(), search_term: Seq::empty(), entries: Seq::empty() }
}

fn new_session() -> (session: GeneratorSession)
    ensures
        session@ == fresh_session(),
{
    let session = GeneratorSession {
        arg_id: String::new(),
        search_term: String::new(),
        entries: Vec::new(),
    };
    proof {
        assert(session@ =~= fresh_session());
    }
    session
}

/// Whether history has to be loaded for a source: it never was, or from
/// another one.
pub open spec fn history_is_due(engine: EngineView, source: HistorySourceConfig) -> bool {
    !engine.history_loaded || !(engine.history_source matches Some(known) && is_same_source(
        known,
        source,
    ))
}

impl Engine {
    /// What holds of every engine.
    pub closed spec fn valid(&self) -> bool {
        self.registry@.valid() && self.frecency.valid()
    }

    /// An engine on an index of specs, which has loaded no history yet.
    pub fn from_registry(registry: Registry, acceptance: AcceptanceIndex) -> (engine: Engine)
        requires
            registry@.valid(),
        ensures
            engine.valid(),
            engine@.registry == registry@,
            engine@.acceptance == acceptance@,
            engine@.history.len() == 0,
            !engine@.history_loaded,
            engine@.history_source is None,
            engine@.store == fresh_store(engine@.history),
            engine@.session == fresh_session(),
    {
        let frecency = Frecency::default();
        let lines = frecency.command_lines();
        Engine {
            registry,
            frecency,
            acceptance,
            frecency_loaded: false,
            history_source: None,
            history: HistoryStore::new(lines),
            generator_session: new_session(),
        }
    }

    /// An engine on an index of specs with history of its own, which counts as
    /// loaded from the default source.
    pub fn new_with_frecency(registry: Registry, frecency: Frecency) -> (engine: Engine)
        requires
            registry@.valid(),
            frecency.valid(),
        ensures
            engine.valid(),
            engine@.registry == registry@,
            engine@.acceptance.len() == 0,
            engine@.history == frecency@,
            engine@.history_loaded,
            engine@.history_source matches Some(source) && source.custom_command is None
                && !source.all_shells && source.current_shell is Unknown,
            engine@.store == fresh_store(frecency@),
            engine@.session == fresh_session(),
    {
        let lines = frecency.command_lines();
        Engine {
            registry,
            frecency,
            acceptance: AcceptanceIndex::default(),
            frecency_loaded: true,
            history_source: Some(
                HistorySourceConfig {
                    custom_command: None,
                    all_shells: false,
                    current_shell: crate::rank::source::HistoryShell::Unknown,
                },
            ),
            history: HistoryStore::new(lines),
            generator_session: new_session(),
        }
    }

    /// The index of specs.
    pub fn registry(&self) -> (registry: &Registry)
        ensures
            registry@ == self@.registry,
    {
        &self.registry
    }

    /// What is kept of the generators of the last argument.
    pub fn session(&self) -> (session: &GeneratorSession)
        ensures
            session@ == self@.session,
    {
        &self.generator_session
    }

    /// Keeps what the generators of an argument left.
    pub fn set_session(&mut self, session: GeneratorSession)
        requires
            old(self).valid(),
        ensures
            final(self).valid(),
            final(self)@ == (EngineView { session: session@, ..old(self)@ }),
    {
        self.generator_session = session;
    }

    /// Forgets what was computed: the session of generators and the argument
    /// values of history; and takes a new index of specs, where there is one.
    pub fn clear_caches(&mut self, registry: Option<Registry>)
        requires
            old(self).valid(),
            registry matches Some(registry) ==> registry@.valid(),
        ensures
            final(self).valid(),
            final(self)@ == (EngineView {
                registry: match registry {
                    Some(registry) => registry@,
                    None => old(self)@.registry,
                },
                store: fresh_store(old(self)@.history),
                session: fresh_session(),
                ..old(self)@
            }),
    {
        self.generator_session = new_session();
        self.history = HistoryStore::new(self.frecency.command_lines());
        if let Some(registry) = registry {
            self.registry = registry;
        }
    }

    /// Records that a row was accepted, and says whether there is anything to
    /// keep.
    pub fn record_acceptance_at(
        &mut self,
        root_command: &str,
        accepted_name: &str,
        timestamp: u64,
    ) -> (kept: bool)
        requires
            old(self).valid(),
        ensures
            final(self).valid(),
            kept == is_recorded(root_command@, accepted_name@),
            final(self)@ == (EngineView {
                acceptance: recorded(
                    old(self)@.acceptance,
                    root_command@,
                    accepted_name@,
                    timestamp,
                ),
                ..old(self)@
            }),
    {
        self.acceptance.record_at(root_command, accepted_name, timestamp)
    }

    /// A copy of the acceptances, to be stored.
    pub fn acceptance(&self) -> (copy: AcceptanceIndex)
        ensures
            copy@ == self@.acceptance,
    {
        self.acceptance.copied()
    }

    /// Whether history has to be loaded from a source before a request.
    pub fn needs_history(&self, source: &HistorySourceConfig, disabled: bool) -> (yes: bool)
        ensures
            yes == (!disabled && history_is_due(self@, *source)),
    {
        if !history_loading_enabled(disabled) {
            return false;
        }
        if !self.frecency_loaded {
            return true;
        }
        match &self.history_source {
            Some(known) => !same_source(known, source),
            None => true,
        }
    }

    /// Takes the commands that were loaded from a source.
    pub fn load_history(&mut self, source: HistorySourceConfig, commands: Vec<(String, u64)>)
        requires
            old(self).valid(),
        ensures
            final(self).valid(),
            final(self)@ == (EngineView {
                history: kept_commands(timed(commands@)),
                history_loaded: true,
                history_source: Some(source),
                store: fresh_store(kept_commands(timed(commands@))),
                ..old(self)@
            }),
    {
        self.frecency = Frecency::from_commands(commands);
        self.frecency_loaded = true;
        self.history_source = Some(source);
        self.history = HistoryStore::new(self.frecency.command_lines());
    }

    /// Takes the argument values of history out, to index more of them.
    pub fn replace_store(&mut self, store: HistoryStore) -> (previous: HistoryStore)
        requires
            old(self).valid(),
        ensures
            final(self).valid(),
            previous@ == old(self)@.store,
            final(self)@ == (EngineView { store: store@, ..old(self)@ }),
    {
        let mut given = store;
        std::mem::swap(&mut self.history, &mut given);
        given
    }

    /// Computes [`answered`]: the rows for a request, or what has to be known
    /// first.
    pub fn complete(
        &self,
        request: &CompleteRequest,
        settings: &Settings,
        answers: &CompleteAnswers,
    ) -> (out: Result<CompleteResult, Missing>)
        requires
            self.valid(),
        ensures
            is_completed(
                out,
                answered(
                    self@.registry.names,
                    *request,
                    *settings,
                    *answers,
                    firsts(self@.history),
                    self@.acceptance,
                ),
            ),
    {
        if request.history_only {
            return complete_history(
                request,
                settings.disable_history,
                &answers.specs,
                &self.frecency,
            );
        }
        let text = completion_buffer(&request.buffer, request.cursor);
        let (tokens, gap) = tokenize(text);
        let mut result = match complete(&self.registry, request, settings, answers) {
            Err(missing) => {
                return Err(missing);
            },
            Ok(result) => result,
        };
        if should_merge_history(request.include_history, settings.disable_history) {
            let fuzzy = result.fuzzy;
            let beginning = history_prefix_from_buffer(text, gap, &tokens);
            merge_history_with_prefix(&mut result, &tokens, beginning, &self.frecency, fuzzy);
        }
        let root = ranking_root_command(&request.buffer, request.cursor);
        if settings.disable_history {
            let nothing = Frecency::default();
            proof {
                assert(firsts(nothing@) =~= Seq::<Seq<char>>::empty());
            }
            apply_with_acceptance(
                &mut result,
                &tokens,
                &nothing,
                &self.acceptance,
                &root,
                settings.alphabetical,
            );
        } else {
            apply_with_acceptance(
                &mut result,
                &tokens,
                &self.frecency,
                &self.acceptance,
                &root,
                settings.alphabetical,
            );
        }
        Ok(result)
    }
}

/// Whether answers were told the spec of a command, and nothing else.
pub open spec fn is_told(
    before: SpecAnswers,
    after: SpecAnswers,
    name: Seq<char>,
    spec: Option<Arc<Spec>>,
) -> bool {
    &&& after.lookup == before.lookup
    &&& after.hooks == before.hooks
    &&& after.generated == before.generated
    &&& after.specs@.len() == before.specs@.len() + 1
    &&& after.specs@.take(before.specs@.len() as int) == before.specs@
    &&& after.specs@.last().0@ == name
    &&& after.specs@.last().1 == spec
}

fn tell(answers: &mut SpecAnswers, name: &str, spec: Option<Arc<Spec>>)
    ensures
        is_told(*old(answers), *final(answers), name@, spec),
{
    answers.specs.push((name.to_owned(), spec));
    proof {
        assert(answers.specs@.take(old(answers).specs@.len() as int) =~= old(answers).specs@);
    }
}

impl Engine {
    /// Answers what the spec of a command is: the one in memory, none where the
    /// command is not known. A spec that has to be read first leaves the
    /// question open.
    pub fn answer_spec(&mut self, name: &str, answers: &mut SpecAnswers) -> (step: LoadStep)
        requires
            old(self).valid(),
        ensures
            final(self).valid(),
            match entry_at(old(self)@.registry.entries, name@, 0) {
                Some(i) => step is Cached && is_told(
                    *old(answers),
                    *final(answers),
                    name@,
                    cached(old(self)@.registry.entries, name@),
                ) && final(self)@ == (EngineView {
                    registry: RegistryView {
                        entries: touched(old(self)@.registry.entries, i),
                        ..old(self)@.registry
                    },
                    ..old(self)@
                }),
                None => final(self)@ == old(self)@ && match file_of(
                    old(self)@.registry.files,
                    name@,
                ) {
                    Some(path) => (step matches LoadStep::Read(file) && file@ == path)
                        && *final(answers) == *old(answers),
                    None => step is Unknown && is_told(
                        *old(answers),
                        *final(answers),
                        name@,
                        None,
                    ),
                },
            },
    {
        if self.registry.is_cached(name) {
            let spec = self.registry.get_arc(name);
            tell(answers, name, spec);
            return LoadStep::Cached;
        }
        match self.registry.file_path(name) {
            Some(path) => LoadStep::Read(path.to_owned()),
            None => {
                tell(answers, name, None);
                LoadStep::Unknown
            },
        }
    }

    /// Answers what the spec of a command is once its file was read: the spec
    /// that was in it, which stays in memory, or none.
    pub fn answer_read(
        &mut self,
        name: &str,
        path: &str,
        spec: Option<Spec>,
        answers: &mut SpecAnswers,
    )
        requires
            old(self).valid(),
        ensures
            final(self).valid(),
            final(self)@ == (EngineView { registry: final(self)@.registry, ..old(self)@ }),
            match spec {
                Some(spec) => ({
                    &&& exists|named: Spec|
                        #![trigger with_name(spec, name@, named)]
                        with_name(spec, name@, named) && taken_in(
                            old(self)@.registry,
                            final(self)@.registry,
                            named,
                            path@,
                        )
                    &&& is_told(
                        *old(answers),
                        *final(answers),
                        name@,
                        cached(final(self)@.registry.entries, name@),
                    )
                }),
                None => final(self)@ == old(self)@ && is_told(
                    *old(answers),
                    *final(answers),
                    name@,
                    None,
                ),
            },
    {
        match spec {
            Some(spec) => {
                self.registry.finish_load(name, path, spec);
                let found = self.registry.shared(name);
                tell(answers, name, found);
            },
            None => tell(answers, name, None),
        }
    }
}

/// Whether a registry has taken in the spec of a command.
pub open spec fn taken_in(
    before: RegistryView,
    after: RegistryView,
    named: Spec,
    path: Seq<char>,
) -> bool {
    after == inserted(
        prepared(before, texts(named.names@), path),
        Arc::new(named),
        Some(path),
    )
}

// ---------------------------------------------------------------------------
// Laws of answers
// ---------------------------------------------------------------------------
proof fn lemma_told(
    before: SpecAnswers,
    after: SpecAnswers,
    name: Seq<char>,
    spec: Option<Arc<Spec>>,
    i: int,
)
    requires
        is_told(before, after, name, spec),
        0 <= i,
    ensures
        spec_answer(before.specs@, name, i) is None && i < after.specs@.len() ==> spec_answer(
            after.specs@,
            name,
            i,
        ) == Some(spec),
    decreases after.specs@.len() - i,
{
    if i < before.specs@.len() {
        assert(after.specs@[i] == after.specs@.take(before.specs@.len() as int)[i]);
        lemma_told(before, after, name, spec, i + 1);
    }
}

/// What answers are told is what they answer, unless they knew the command
/// before; and everything known before stays.
pub proof fn law_told_answers_are_found(
    before: SpecAnswers,
    after: SpecAnswers,
    name: Seq<char>,
    spec: Option<Arc<Spec>>,
)
    requires
        is_told(before, after, name, spec),
    ensures
        extends(before, after),
        spec_answer(before.specs@, name, 0) is None ==> spec_answer(after.specs@, name, 0) == Some(
            spec,
        ),
        spec_answer(before.specs@, name, 0) is Some ==> spec_answer(after.specs@, name, 0)
            == spec_answer(before.specs@, name, 0),
{
    lemma_told(before, after, name, spec, 0);
    assert(before.generated@ =~= after.generated@.take(before.generated@.len() as int));
    lemma_answer_kept(before, after, name, 0);
}

// ---------------------------------------------------------------------------
// Laws
// ---------------------------------------------------------------------------
/// With history disabled, nothing that was loaded before counts.
pub proof fn law_disabled_history_does_not_count(
    names: Seq<Seq<char>>,
    request: CompleteRequest,
    settings: Settings,
    answers: CompleteAnswers,
    history: Seq<Seq<char>>,
    other: Seq<Seq<char>>,
    acceptances: Seq<(Seq<char>, Seq<char>, u64)>,
)
    requires
        settings.disable_history,
    ensures
        answered(names, request, settings, answers, history, acceptances) == answered(
            names,
            request,
            settings,
            answers,
            other,
            acceptances,
        ),
{
}

/// With history disabled, a request for history alone gets no rows.
pub proof fn law_disabled_history_shows_nothing(
    names: Seq<Seq<char>>,
    request: CompleteRequest,
    settings: Settings,
    answers: CompleteAnswers,
    history: Seq<Seq<char>>,
    acceptances: Seq<(Seq<char>, Seq<char>, u64)>,
)
    requires
        settings.disable_history,
        request.history_only,
    ensures
        answered(names, request, settings, answers, history, acceptances) matches Completed::Done(
            result,
        ) ==> result.suggestions.len() == 0,
{
}

/// What stays of a result whatever its rows are: the term to replace, the mode
/// of matching and the argument come from completion alone.
pub proof fn law_ranking_keeps_the_rest(
    names: Seq<Seq<char>>,
    request: CompleteRequest,
    settings: Settings,
    answers: CompleteAnswers,
    history: Seq<Seq<char>>,
    acceptances: Seq<(Seq<char>, Seq<char>, u64)>,
)
    requires
        !request.history_only,
    ensures
        match (
            answered(names, request, settings, answers, history, acceptances),
            completed(names, request, settings, answers),
        ) {
            (Completed::Done(a), Completed::Done(b)) => a.search_term == b.search_term
                && a.match_term == b.match_term && a.fuzzy == b.fuzzy && a.current_arg
                == b.current_arg && a.pending_generators == b.pending_generators && a.debounce_ms
                == b.debounce_ms,
            (Completed::Misses(a), Completed::Misses(b)) => a == b,
            _ => false,
        },
{
}

/// History that was loaded is not loaded again for the same source.
pub proof fn law_history_is_loaded_once(engine: EngineView, source: HistorySourceConfig)
    requires
        engine.history_loaded,
        engine.history_source == Some(source),
    ensures
        !history_is_due(engine, source),
{
}

/// Ranking files a request under the command that is completed: both read the
/// same text.
pub proof fn law_ranking_and_completion_agree(request: CompleteRequest)
    ensures
        root_command(request.buffer@, request.cursor) == ({
            let typed = typed_in(completion_text(request.buffer@, request.cursor));
            if typed.tokens.len() > 0 {
                typed.tokens[0]
            } else {
                Seq::empty()
            }
        }),
{
}

} // verus!
