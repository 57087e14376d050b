//! Completing a request from specs: what is offered at the caret.
//!
//! Specs of commands, generated rows and the rows of a command's own
//! completion come from outside. Completion takes what it has been given so
//! far and either finishes or says what is missing.
use std::sync::Arc;
use vstd::prelude::*;

use super::active::{
    completed_words, context_of, hides_value, is_tail, law_search_terms_are_typed, reading_behind,
    resolve_context, ActiveArg, ActiveView, CompletionContext, ContextView,
};
use super::auto_execute::{
    add_current_token_auto_execute, add_exact_auto_execute, add_space_auto_execute,
    with_current_action, with_exact_action, with_space_action,
};
use super::candidates::{effective_fuzzy, filter_query, fuzzy_for, matching_rows, Asking};
use super::options::{
    chain_of, gather_options, options_in_force, parse_short_option_chain, ShortOptionChain,
};
use super::rows::{
    additional_rows, arg_suggests_commands, chain_rows, collect_additional,
    collect_option_suggestions, collect_subcommands, command_arg_suggestions, command_rows,
    commands_for, first_token_rows, option_chain_suggestions, option_rows, subcommand_rows,
    wants_commands,
};
use super::shell::{
    before_caret, buffer_before_cursor, completion_buffer, completion_text, current_token_raw,
    ends_in_gap, is_fresh, is_fresh_command_position, last_raw_word,
    law_completion_text_ends_at_the_caret, lemma_word_start, tokenize, words,
};
use super::walk::{
    extends, law_finished_walks_stand, lemma_answer_kept, spec_answer, walked, Need, NeedView,
    SpecAnswers, Walked,
};
use crate::ir::{ArgSpec, OptionSpec, Spec};
use crate::registry::{names_with_exact, Registry};
use crate::runtime::{
    copy_rows, extend_rows, make_result, plain_result, query_term_for, rows, term_after,
    CompleteRequest, CompleteResult, CurrentArg, ResultView, Suggestion, SuggestionView,
};
use crate::settings::Settings;
use crate::text::{chars_of, holds_text, share, text_range, texts};

verus! {

/// The rows that the generators of an argument gave.
pub struct GeneratedRows {
    pub rows: Vec<Suggestion>,
    /// Whether some generators were held back, and for how long.
    pub pending: bool,
    pub debounce_ms: Option<i64>,
}

/// What completion has been given so far.
pub struct CompleteAnswers {
    pub specs: SpecAnswers,
    /// The rows of the argument under the caret.
    pub generated: Option<GeneratedRows>,
    /// The rows of the command's own completion.
    pub fallback: Option<Vec<Suggestion>>,
}

/// The argument that rows are needed for.
pub struct RowsRequest {
    pub arg: Arc<ArgSpec>,
    pub query: String,
    pub search_term: String,
    pub fuzzy: bool,
}

/// What completion needs to go on.
pub enum Missing {
    Spec(Need),
    Rows(RowsRequest),
    /// The rows of the command's own completion, and whether to match fuzzily.
    Fallback(bool),
}

/// What completion needs to go on.
pub enum MissingView {
    Spec(NeedView),
    Rows(Arc<ArgSpec>, Seq<char>, Seq<char>, bool),
    Fallback(bool),
}

impl View for Missing {
    type V = MissingView;

    open spec fn view(&self) -> MissingView {
        match self {
            Missing::Spec(need) => MissingView::Spec(need@),
            Missing::Rows(request) => MissingView::Rows(
                request.arg,
                request.query@,
                request.search_term@,
                request.fuzzy,
            ),
            Missing::Fallback(fuzzy) => MissingView::Fallback(*fuzzy),
        }
    }
}

/// The outcome of completion: a result, or what is missing.
pub enum Completed {
    Done(ResultView),
    Misses(MissingView),
}

/// Whether a result of completion is the stated one.
pub open spec fn is_completed(out: Result<CompleteResult, Missing>, stated: Completed) -> bool {
    match out {
        Ok(result) => stated == Completed::Done(result@),
        Err(missing) => stated == Completed::Misses(missing@),
    }
}

// ---------------------------------------------------------------------------
// The first word
// ---------------------------------------------------------------------------
/// The result for the first word: the commands that match it, where such rows
/// are wanted. A command that is typed out is an ordinary row: there is no
/// action to execute it.
pub open spec fn first_token(
    names: Seq<Seq<char>>,
    request: CompleteRequest,
    raw: Seq<char>,
    term: Seq<char>,
) -> ResultView {
    if !request.suggest_first_token {
        plain_result(Seq::empty(), request.fuzzy, raw, term)
    } else {
        plain_result(
            command_rows(names_with_exact(names, term, request.fuzzy), Seq::empty()),
            request.fuzzy,
            raw,
            term,
        )
    }
}

/// Computes [`first_token`].
pub fn first_token_result(
    registry: &Registry,
    request: &CompleteRequest,
    raw_search_term: String,
    normalized_search_term: String,
) -> (result: CompleteResult)
    requires
        registry@.valid(),
    ensures
        result@ == first_token(
            registry@.names,
            *request,
            raw_search_term@,
            normalized_search_term@,
        ),
{
    let mut suggestions: Vec<Suggestion> = Vec::new();
    if !request.suggest_first_token {
        proof {
            assert(rows(suggestions@) =~= Seq::<SuggestionView>::empty());
        }
        return make_result(suggestions, request.fuzzy, raw_search_term, normalized_search_term);
    }
    suggestions = first_token_rows(registry, &normalized_search_term, request.fuzzy);
    make_result(suggestions, request.fuzzy, raw_search_term, normalized_search_term)
}

// ---------------------------------------------------------------------------
// Inside a command
// ---------------------------------------------------------------------------
/// What is typed at the caret.
pub struct Typed {
    pub tokens: Seq<Seq<char>>,
    pub gap: bool,
    /// The raw word under the caret.
    pub raw: Seq<char>,
    /// Its value.
    pub term: Seq<char>,
}

/// What is typed in a command text.
pub open spec fn typed_in(text: Seq<char>) -> Typed {
    let gap = ends_in_gap(text);
    let tokens = words(text);
    Typed {
        tokens,
        gap,
        raw: if gap {
            Seq::empty()
        } else {
            last_raw_word(text)
        },
        term: if gap || tokens.len() == 0 {
            Seq::empty()
        } else {
            tokens.last()
        },
    }
}

/// How rows are matched in a context.
pub struct Terms {
    pub fuzzy: bool,
    pub query: Seq<char>,
    pub search_term: Seq<char>,
    /// The chain of short options under the caret, without a value.
    pub chain: Option<ShortOptionChain>,
}

/// The argument of the context, where there is one.
pub open spec fn context_arg(context: ContextView) -> Option<Arc<ArgSpec>> {
    match context.active {
        Some(active) => Some(active.arg),
        None => None,
    }
}

/// The options in force in a context.
pub open spec fn context_options(context: ContextView) -> Seq<Arc<OptionSpec>> {
    options_in_force(context.spec.options@, context.persistent)
}

/// The terms of a context. The argument's value and rule decide where there is
/// one.
pub open spec fn terms_in(context: ContextView, typed: Typed, user_fuzzy: bool) -> Terms {
    let chain = if typed.gap {
        None
    } else {
        chain_of(context_options(context), typed.term, context.directives)
    };
    Terms {
        fuzzy: fuzzy_for(user_fuzzy, *context.spec, context_arg(context)),
        query: match context.active {
            Some(active) => match active.arg.meta.get_query_term {
                Some(separator) => term_after(active.search_term, Some(separator@)),
                None => active.query,
            },
            None => typed.term,
        },
        search_term: match context.active {
            Some(active) => active.search_term,
            None => typed.raw,
        },
        chain: if chain matches Some(c) && c.value is None {
            chain
        } else {
            None
        },
    }
}

/// How rows are asked for with the given terms.
pub open spec fn asking_with(terms: Terms, settings: Settings) -> Asking {
    Asking {
        kind: Seq::empty(),
        query: terms.query,
        search_term: terms.search_term,
        fuzzy: terms.fuzzy,
        prefer_verbose: settings.prefer_verbose,
    }
}

/// Generated rows, as extensions of an open chain where there is one.
pub open spec fn chained(list: Seq<SuggestionView>, open_chain: bool) -> Seq<SuggestionView> {
    Seq::new(
        list.len(),
        |i: int|
            if open_chain {
                SuggestionView { query_term: Some(Seq::empty()), ..list[i] }
            } else {
                list[i]
            },
    )
}

/// The rows of the argument under the caret: commands where it takes them, and
/// what its generators gave.
pub open spec fn argument_rows(
    names: Seq<Seq<char>>,
    context: ContextView,
    terms: Terms,
    generated: Seq<SuggestionView>,
) -> Seq<SuggestionView> {
    match context.active {
        None => Seq::empty(),
        Some(active) => (if wants_commands(*active.arg) {
            commands_for(names, *active.arg, terms.query, terms.fuzzy)
        } else {
            Seq::empty()
        }) + chained(generated, terms.chain is Some),
    }
}

/// Whether the argument under the caret keeps other kinds of rows out.
pub open spec fn is_exclusive(context: ContextView) -> bool {
    context.active matches Some(active) && active.exclusive
}

/// The rows of the options: behind an open chain its extensions, else the
/// options, where one may come next and nothing but an option is being typed.
pub open spec fn rows_of_options(
    context: ContextView,
    typed: Typed,
    terms: Terms,
    settings: Settings,
) -> Seq<SuggestionView> {
    let list = context_options(context);
    match terms.chain {
        Some(chain) => chain_rows(
            list,
            list.len() as int,
            chain.option as int,
            typed.term.take(chain.prefix as int),
            context.passed,
            context.directives,
        ),
        None => if context.options_allowed && !is_exclusive(context) && (terms.query.len() == 0
            || terms.query[0] == '-') {
            option_rows(list, context.passed, context.directives, asking_with(terms, settings))
        } else {
            Seq::empty()
        },
    }
}

/// All rows of a context: subcommands, the argument's rows, additional
/// suggestions and options, in this order.
pub open spec fn context_rows(
    names: Seq<Seq<char>>,
    context: ContextView,
    typed: Typed,
    terms: Terms,
    settings: Settings,
    generated: Seq<SuggestionView>,
) -> Seq<SuggestionView> {
    (if is_exclusive(context) || terms.chain is Some {
        Seq::empty()
    } else {
        subcommand_rows(context.spec.subcommands@, asking_with(terms, settings))
    }) + argument_rows(names, context, terms, generated) + additional_rows(
        context.spec.additional_suggestions@,
        asking_with(terms, settings),
        terms.chain is Some,
    ) + rows_of_options(context, typed, terms, settings)
}

/// Whether the text typed so far is offered as a row: as the argument says,
/// else as the setting says.
pub open spec fn wants_current(active: Option<ActiveView>, global: bool) -> bool {
    match active {
        Some(active) => match active.arg.suggest_current_token {
            Some(own) => own,
            None => global,
        },
        None => global,
    }
}

/// The rows with those that execute.
pub open spec fn with_actions(
    list: Seq<SuggestionView>,
    context: ContextView,
    typed: Typed,
    terms: Terms,
    settings: Settings,
) -> Seq<SuggestionView> {
    with_space_action(
        with_current_action(
            with_exact_action(
                list,
                terms.query,
                settings.hide_auto_execute,
                settings.only_show_on_tab,
                settings.run_dangerous,
            ),
            typed.term,
            wants_current(context.active, settings.always_suggest_current_token),
            settings.hide_auto_execute,
            settings.only_show_on_tab,
            settings.run_dangerous,
        ),
        typed.term,
        settings.execute_after_space,
        settings.hide_auto_execute,
        settings.only_show_on_tab,
    )
}

/// The result in a context, given its rows.
pub open spec fn context_result(
    list: Seq<SuggestionView>,
    context: ContextView,
    typed: Typed,
    terms: Terms,
    settings: Settings,
    pending: bool,
    debounce_ms: Option<i64>,
) -> ResultView {
    ResultView {
        suggestions: with_actions(list, context, typed, terms, settings),
        fuzzy: terms.fuzzy,
        search_term: terms.search_term,
        match_term: terms.query,
        current_arg: match context.active {
            Some(active) => Some((active.arg.name@, active.arg.description@)),
            None => None,
        },
        pending_generators: pending,
        debounce_ms,
    }
}

/// The outcome in a context. The argument's generated rows are needed where
/// there is one; without one, and without rows, the command's own completion
/// is.
pub open spec fn completed_in(
    names: Seq<Seq<char>>,
    context: ContextView,
    typed: Typed,
    user_fuzzy: bool,
    settings: Settings,
    answers: CompleteAnswers,
) -> Completed {
    let terms = terms_in(context, typed, user_fuzzy);
    match (context.active, answers.generated) {
        (Some(active), None) => Completed::Misses(
            MissingView::Rows(active.arg, terms.query, terms.search_term, terms.fuzzy),
        ),
        (Some(active), Some(generated)) => Completed::Done(
            context_result(
                context_rows(names, context, typed, terms, settings, rows(generated.rows@)),
                context,
                typed,
                terms,
                settings,
                generated.pending,
                generated.debounce_ms,
            ),
        ),
        (None, _) => {
            let own = context_rows(names, context, typed, terms, settings, Seq::empty());
            if own.len() > 0 {
                Completed::Done(
                    context_result(own, context, typed, terms, settings, false, None),
                )
            } else {
                match answers.fallback {
                    None => Completed::Misses(MissingView::Fallback(terms.fuzzy)),
                    Some(fallback) => Completed::Done(
                        context_result(
                            matching_rows(rows(fallback@), terms.query, terms.fuzzy),
                            context,
                            typed,
                            terms,
                            settings,
                            false,
                            None,
                        ),
                    ),
                }
            }
        },
    }
}

/// The outcome for a request. Disabled and unknown commands get no rows.
pub open spec fn completed(
    names: Seq<Seq<char>>,
    request: CompleteRequest,
    settings: Settings,
    answers: CompleteAnswers,
) -> Completed {
    let typed = typed_in(completion_text(request.buffer@, request.cursor));
    let nothing = plain_result(Seq::empty(), request.fuzzy, typed.raw, typed.term);
    if typed.tokens.len() == 0 {
        if is_fresh(before_caret(request.buffer@, request.cursor)) {
            Completed::Done(first_token(names, request, Seq::empty(), Seq::empty()))
        } else {
            Completed::Done(
                plain_result(Seq::empty(), request.fuzzy, Seq::empty(), Seq::empty()),
            )
        }
    } else if texts(settings.disabled_commands@).contains(typed.tokens[0]) {
        Completed::Done(nothing)
    } else if typed.tokens.len() == 1 && !typed.gap {
        Completed::Done(first_token(names, request, typed.raw, typed.term))
    } else {
        match spec_answer(answers.specs.specs@, typed.tokens[0], 0) {
            None => Completed::Misses(MissingView::Spec(NeedView::Spec(typed.tokens[0]))),
            Some(None) => Completed::Done(nothing),
            Some(Some(root)) => match context_of(
                answers.specs,
                root,
                typed.tokens,
                typed.gap,
                typed.term,
                typed.raw,
            ) {
                Walked::Needs(need) => Completed::Misses(MissingView::Spec(need)),
                Walked::Done(context) => completed_in(
                    names,
                    context,
                    typed,
                    request.fuzzy,
                    settings,
                    answers,
                ),
            },
        }
    }
}

/// Whether a command is among those without completions.
pub fn command_is_disabled_from(commands: &[String], command: &str) -> (yes: bool)
    ensures
        yes == texts(commands@).contains(command@),
{
    holds_text(commands, command)
}

/// Computes [`wants_current`].
pub fn suggest_current_token_for(active_arg: Option<&ActiveArg>, global: bool) -> (yes: bool)
    ensures
        yes == wants_current(
            match active_arg {
                Some(active) => Some(active@),
                None => None,
            },
            global,
        ),
{
    match active_arg {
        Some(active) => match active.arg.suggest_current_token {
            Some(own) => own,
            None => global,
        },
        None => global,
    }
}

/// Computes [`chained`].
fn chain_generated(list: &Vec<Suggestion>, open_chain: bool) -> (out: Vec<Suggestion>)
    ensures
        rows(out@) == chained(rows(list@), open_chain),
{
    let ghost stated = chained(rows(list@), open_chain);
    let mut out: Vec<Suggestion> = Vec::new();
    let mut i: usize = 0;
    while i < list.len()
        invariant
            i <= list@.len(),
            stated == chained(rows(list@), open_chain),
            rows(out@) == stated.take(i as int),
        decreases list@.len() - i,
    {
        let row = list[i].clone();
        let ghost had = out@;
        let query_term: Option<String> = if open_chain {
            Some(String::new())
        } else {
            row.query_term
        };
        let finished = Suggestion { query_term, ..row };
        proof {
            assert(finished@ =~= stated[i as int]);
        }
        out.push(finished);
        proof {
            assert(rows(out@) =~= rows(had).push(finished@));
            assert(stated.take(i + 1) =~= stated.take(i as int).push(stated[i as int]));
        }
        i += 1;
    }
    proof {
        assert(stated.take(stated.len() as int) =~= stated);
    }
    out
}

/// The terms of a context, as they are computed with.
struct TermTexts {
    fuzzy: bool,
    query: String,
    search_term: String,
    chain: Option<ShortOptionChain>,
}

impl View for TermTexts {
    type V = Terms;

    closed spec fn view(&self) -> Terms {
        Terms {
            fuzzy: self.fuzzy,
            query: self.query@,
            search_term: self.search_term@,
            chain: self.chain,
        }
    }
}

/// What is typed, as it is computed with.
struct TypedTexts {
    tokens: Vec<String>,
    gap: bool,
    raw: String,
    term: String,
}

impl View for TypedTexts {
    type V = Typed;

    closed spec fn view(&self) -> Typed {
        Typed { tokens: texts(self.tokens@), gap: self.gap, raw: self.raw@, term: self.term@ }
    }
}

fn read_typed(text: &str) -> (typed: TypedTexts)
    ensures
        typed@ == typed_in(text@),
{
    let (tokens, gap) = tokenize(text);
    let raw = if gap {
        String::new()
    } else {
        current_token_raw(text)
    };
    proof {
        if tokens@.len() > 0 {
            assert(texts(tokens@).last() == tokens@.last()@);
        }
        assert(texts(tokens@).len() == tokens@.len());
    }
    let term = if gap || tokens.len() == 0 {
        String::new()
    } else {
        tokens[tokens.len() - 1].clone()
    };
    TypedTexts { tokens, gap, raw, term }
}

fn find_terms(
    context: &CompletionContext,
    options: &Vec<Arc<OptionSpec>>,
    typed: &TypedTexts,
    user_fuzzy: bool,
) -> (terms: TermTexts)
    requires
        options@ == context_options(context@),
    ensures
        terms@ == terms_in(context@, typed@, user_fuzzy),
        terms.chain matches Some(c) ==> c.option < options@.len() && c.prefix <= typed.term@.len(),
{
    let active = match &context.active_arg {
        Some(active) => Some(&active.arg),
        None => None,
    };
    let fuzzy = effective_fuzzy(user_fuzzy, &context.spec, active);
    let chain: Option<ShortOptionChain> = if typed.gap {
        None
    } else {
        let w = chars_of(&typed.term);
        match parse_short_option_chain(options, &w, &context.parser_directives) {
            Some(c) => {
                if c.value.is_none() {
                    Some(c)
                } else {
                    None
                }
            },
            None => None,
        }
    };
    match &context.active_arg {
        Some(active) => {
            let query = match &active.arg.meta.get_query_term {
                Some(separator) => query_term_for(
                    &active.search_term,
                    Some(separator.as_str()),
                ),
                None => active.query.clone(),
            };
            TermTexts { fuzzy, query, search_term: active.search_term.clone(), chain }
        },
        None => TermTexts {
            fuzzy,
            query: typed.term.clone(),
            search_term: typed.raw.clone(),
            chain,
        },
    }
}

fn collect_options(
    context: &CompletionContext,
    options: &Vec<Arc<OptionSpec>>,
    typed: &TypedTexts,
    terms: &TermTexts,
    settings: &Settings,
) -> (out: Vec<Suggestion>)
    requires
        options@ == context_options(context@),
        terms.chain matches Some(c) ==> c.option < options@.len() && c.prefix <= typed.term@.len(),
    ensures
        rows(out@) == rows_of_options(context@, typed@, terms@, *settings),
{
    match terms.chain {
        Some(chain) => {
            let w = chars_of(&typed.term);
            let prefix = text_range(&w, 0, chain.prefix);
            proof {
                assert(w@.subrange(0, chain.prefix as int) =~= w@.take(chain.prefix as int));
            }
            option_chain_suggestions(
                options,
                chain.option,
                &prefix,
                &context.passed_options,
                &context.parser_directives,
            )
        },
        None => {
            let exclusive = match &context.active_arg {
                Some(active) => active.exclusive,
                None => false,
            };
            let q = chars_of(&terms.query);
            if context.options_allowed && !exclusive && (q.len() == 0 || q[0] == '-') {
                collect_option_suggestions(
                    options,
                    &context.passed_options,
                    &terms.query,
                    &terms.search_term,
                    terms.fuzzy,
                    settings.prefer_verbose,
                    &context.parser_directives,
                )
            } else {
                let out: Vec<Suggestion> = Vec::new();
                proof {
                    assert(rows(out@) =~= Seq::<SuggestionView>::empty());
                }
                out
            }
        },
    }
}

fn collect_rows(
    registry: &Registry,
    context: &CompletionContext,
    options: &Vec<Arc<OptionSpec>>,
    typed: &TypedTexts,
    terms: &TermTexts,
    settings: &Settings,
    generated: &Vec<Suggestion>,
) -> (out: Vec<Suggestion>)
    requires
        registry@.valid(),
        options@ == context_options(context@),
        terms.chain matches Some(c) ==> c.option < options@.len() && c.prefix <= typed.term@.len(),
    ensures
        rows(out@) == context_rows(
            registry@.names,
            context@,
            typed@,
            terms@,
            *settings,
            rows(generated@),
        ),
{
    let exclusive = match &context.active_arg {
        Some(active) => active.exclusive,
        None => false,
    };
    let open_chain = terms.chain.is_some();
    let mut out: Vec<Suggestion> = if exclusive || open_chain {
        Vec::new()
    } else {
        collect_subcommands(
            &context.spec.subcommands,
            &terms.query,
            &terms.search_term,
            terms.fuzzy,
            settings.prefer_verbose,
        )
    };
    let ghost first = rows(out@);
    proof {
        if exclusive || open_chain {
            assert(first =~= Seq::<SuggestionView>::empty());
        }
    }
    let ghost argument = argument_rows(registry@.names, context@, terms@, rows(generated@));
    match &context.active_arg {
        None => {
            proof {
                assert(first + argument =~= first);
            }
        },
        Some(active) => {
            let wants = arg_suggests_commands(&active.arg);
            let commands: Vec<Suggestion> = if wants {
                command_arg_suggestions(registry, &active.arg, &terms.query, terms.fuzzy)
            } else {
                Vec::new()
            };
            let ghost named = rows(commands@);
            let given = chain_generated(generated, open_chain);
            let ghost given_rows = rows(given@);
            extend_rows(&mut out, commands);
            extend_rows(&mut out, given);
            proof {
                if !wants {
                    assert(named =~= Seq::<SuggestionView>::empty());
                }
                assert(first + named + given_rows =~= first + (named + given_rows));
            }
        },
    }
    proof {
        assert(rows(out@) == first + argument);
    }
    let additional = collect_additional(
        &context.spec.additional_suggestions,
        &terms.query,
        &terms.search_term,
        terms.fuzzy,
        settings.prefer_verbose,
        open_chain,
    );
    extend_rows(&mut out, additional);
    let of_options = collect_options(context, options, typed, terms, settings);
    extend_rows(&mut out, of_options);
    out
}

fn finish_result(
    suggestions: Vec<Suggestion>,
    context: &CompletionContext,
    typed: &TypedTexts,
    terms: TermTexts,
    settings: &Settings,
    pending: bool,
    debounce_ms: Option<i64>,
) -> (result: CompleteResult)
    ensures
        result@ == context_result(
            rows(suggestions@),
            context@,
            typed@,
            terms@,
            *settings,
            pending,
            debounce_ms,
        ),
{
    let mut list = suggestions;
    add_exact_auto_execute(
        &mut list,
        &terms.query,
        settings.hide_auto_execute,
        settings.only_show_on_tab,
        settings.run_dangerous,
    );
    let active = match &context.active_arg {
        Some(active) => Some(active),
        None => None,
    };
    add_current_token_auto_execute(
        &mut list,
        &typed.term,
        suggest_current_token_for(active, settings.always_suggest_current_token),
        settings.hide_auto_execute,
        settings.only_show_on_tab,
        settings.run_dangerous,
    );
    add_space_auto_execute(
        &mut list,
        &typed.term,
        settings.execute_after_space,
        settings.hide_auto_execute,
        settings.only_show_on_tab,
    );
    let current_arg = match &context.active_arg {
        Some(active) => Some(
            CurrentArg {
                name: active.arg.name.clone(),
                description: active.arg.description.clone(),
            },
        ),
        None => None,
    };
    CompleteResult {
        suggestions: list,
        fuzzy: terms.fuzzy,
        search_term: terms.search_term,
        match_term: terms.query,
        current_arg,
        pending_generators: pending,
        debounce_ms,
    }
}

fn complete_in(
    registry: &Registry,
    context: &CompletionContext,
    typed: &TypedTexts,
    user_fuzzy: bool,
    settings: &Settings,
    answers: &CompleteAnswers,
) -> (out: Result<CompleteResult, Missing>)
    requires
        registry@.valid(),
    ensures
        is_completed(
            out,
            completed_in(registry@.names, context@, typed@, user_fuzzy, *settings, *answers),
        ),
{
    let options = gather_options(&context.spec.options, &context.persistent_options);
    let terms = find_terms(context, &options, typed, user_fuzzy);
    match &context.active_arg {
        Some(active) => match &answers.generated {
            None => Err(
                Missing::Rows(
                    RowsRequest {
                        arg: share(&active.arg),
                        query: terms.query,
                        search_term: terms.search_term,
                        fuzzy: terms.fuzzy,
                    },
                ),
            ),
            Some(generated) => {
                let list = collect_rows(
                    registry,
                    context,
                    &options,
                    typed,
                    &terms,
                    settings,
                    &generated.rows,
                );
                Ok(
                    finish_result(
                        list,
                        context,
                        typed,
                        terms,
                        settings,
                        generated.pending,
                        generated.debounce_ms,
                    ),
                )
            },
        },
        None => {
            let none: Vec<Suggestion> = Vec::new();
            proof {
                assert(rows(none@) =~= Seq::<SuggestionView>::empty());
            }
            let own = collect_rows(registry, context, &options, typed, &terms, settings, &none);
            proof {
                assert(rows(own@).len() == own@.len());
            }
            if own.len() > 0 {
                return Ok(finish_result(own, context, typed, terms, settings, false, None));
            }
            match &answers.fallback {
                None => Err(Missing::Fallback(terms.fuzzy)),
                Some(fallback) => {
                    let copy = copy_rows(fallback);
                    let list = filter_query(copy, &terms.query, terms.fuzzy);
                    Ok(finish_result(list, context, typed, terms, settings, false, None))
                },
            }
        },
    }
}

/// Completes a request with what has been given so far, or says what is
/// missing.
pub fn complete(
    registry: &Registry,
    request: &CompleteRequest,
    settings: &Settings,
    answers: &CompleteAnswers,
) -> (out: Result<CompleteResult, Missing>)
    requires
        registry@.valid(),
    ensures
        is_completed(out, completed(registry@.names, *request, *settings, *answers)),
{
    let text = completion_buffer(&request.buffer, request.cursor);
    let typed = read_typed(text);
    let none: Vec<Suggestion> = Vec::new();
    proof {
        assert(rows(none@) =~= Seq::<SuggestionView>::empty());
        assert(texts(typed.tokens@).len() == typed.tokens@.len());
    }
    if typed.tokens.len() == 0 {
        let raw = buffer_before_cursor(&request.buffer, request.cursor);
        if is_fresh_command_position(raw) {
            return Ok(
                first_token_result(registry, request, String::new(), String::new()),
            );
        }
        return Ok(make_result(none, request.fuzzy, String::new(), String::new()));
    }
    let command = typed.tokens[0].as_str();
    proof {
        assert(texts(typed.tokens@)[0] == command@);
    }
    if command_is_disabled_from(&settings.disabled_commands, command) {
        return Ok(make_result(none, request.fuzzy, typed.raw, typed.term));
    }
    if typed.tokens.len() == 1 && !typed.gap {
        return Ok(first_token_result(registry, request, typed.raw, typed.term));
    }
    let root = match answers.specs.answer(command) {
        None => {
            return Err(Missing::Spec(Need::Spec(command.to_owned())));
        },
        Some(None) => {
            return Ok(make_result(none, request.fuzzy, typed.raw, typed.term));
        },
        Some(Some(root)) => root,
    };
    match resolve_context(
        &answers.specs,
        root,
        &typed.tokens,
        typed.gap,
        &typed.term,
        &typed.raw,
    ) {
        Err(need) => Err(Missing::Spec(need)),
        Ok(context) => complete_in(
            registry,
            &context,
            &typed,
            request.fuzzy,
            settings,
            answers,
        ),
    }
}

/// Whether matching is fuzzy at the caret, or what is needed to say so.
pub open spec fn fuzzy_at(answers: SpecAnswers, user_fuzzy: bool, typed: Typed) -> Walked<bool> {
    if typed.tokens.len() == 0 {
        Walked::Done(user_fuzzy)
    } else {
        match spec_answer(answers.specs@, typed.tokens[0], 0) {
            None => Walked::Needs(NeedView::Spec(typed.tokens[0])),
            Some(None) => Walked::Done(user_fuzzy),
            Some(Some(root)) => match context_of(
                answers,
                root,
                typed.tokens,
                typed.gap,
                typed.term,
                typed.raw,
            ) {
                Walked::Needs(need) => Walked::Needs(need),
                Walked::Done(context) => Walked::Done(
                    fuzzy_for(user_fuzzy, *context.spec, context_arg(context)),
                ),
            },
        }
    }
}

/// Computes [`fuzzy_at`].
pub fn effective_fuzzy_for_tokens(
    answers: &SpecAnswers,
    user_fuzzy: bool,
    tokens: &[String],
    ends_with_space: bool,
    query: &str,
    raw_query: &str,
) -> (out: Result<bool, Need>)
    ensures
        ({
            let stated = fuzzy_at(
                *answers,
                user_fuzzy,
                (Typed {
                    tokens: texts(tokens@),
                    gap: ends_with_space,
                    raw: raw_query@,
                    term: query@,
                }),
            );
            match out {
                Ok(fuzzy) => stated == Walked::Done(fuzzy),
                Err(need) => stated == Walked::<bool>::Needs(need@),
            }
        }),
{
    if tokens.len() == 0 {
        return Ok(user_fuzzy);
    }
    proof {
        assert(texts(tokens@)[0] == tokens@[0]@);
    }
    let root = match answers.answer(&tokens[0]) {
        None => {
            return Err(Need::Spec(tokens[0].clone()));
        },
        Some(None) => {
            return Ok(user_fuzzy);
        },
        Some(Some(root)) => root,
    };
    match resolve_context(answers, root, tokens, ends_with_space, query, raw_query) {
        Err(need) => Err(need),
        Ok(context) => {
            let active = match &context.active_arg {
                Some(active) => Some(&active.arg),
                None => None,
            };
            Ok(effective_fuzzy(user_fuzzy, &context.spec, active))
        },
    }
}

// ---------------------------------------------------------------------------
// Laws
// ---------------------------------------------------------------------------
/// What is inserted replaces exactly the raw word under the caret or a part of
/// it: outside an argument the search term is that word.
pub proof fn law_search_term_without_argument(
    context: ContextView,
    typed: Typed,
    user_fuzzy: bool,
)
    requires
        context.active is None,
    ensures
        terms_in(context, typed, user_fuzzy).search_term == typed.raw,
        terms_in(context, typed, user_fuzzy).query == typed.term,
{
}

/// An argument without a strategy of its own takes the user's setting, whatever
/// its command says.
pub proof fn law_arguments_do_not_inherit_strategies(
    user_fuzzy: bool,
    spec: Spec,
    arg: Arc<ArgSpec>,
)
    requires
        arg.filter_strategy is None,
    ensures
        fuzzy_for(user_fuzzy, spec, Some(arg)) == user_fuzzy,
{
}

/// A disabled command gets no rows, whatever else is known about it.
pub proof fn law_disabled_commands_get_nothing(
    names: Seq<Seq<char>>,
    request: CompleteRequest,
    settings: Settings,
    answers: CompleteAnswers,
)
    requires
        ({
            let typed = typed_in(completion_text(request.buffer@, request.cursor));
            typed.tokens.len() > 0 && texts(settings.disabled_commands@).contains(typed.tokens[0])
        }),
    ensures
        completed(names, request, settings, answers) matches Completed::Done(result)
            && result.suggestions.len() == 0,
{
}

/// Completion depends only on the text before the caret: what stands behind it
/// changes nothing.
pub proof fn law_text_behind_the_caret_is_ignored(
    names: Seq<Seq<char>>,
    first: CompleteRequest,
    second: CompleteRequest,
    settings: Settings,
    answers: CompleteAnswers,
)
    requires
        before_caret(first.buffer@, first.cursor) == before_caret(second.buffer@, second.cursor),
        first.fuzzy == second.fuzzy,
        first.suggest_first_token == second.suggest_first_token,
    ensures
        completed(names, first, settings, answers) == completed(names, second, settings, answers),
{
}

/// An argument that must come next keeps subcommands and options out: only its
/// own rows and the additional suggestions are offered.
pub proof fn law_exclusive_arguments_stand_alone(
    names: Seq<Seq<char>>,
    context: ContextView,
    typed: Typed,
    terms: Terms,
    settings: Settings,
    generated: Seq<SuggestionView>,
)
    requires
        is_exclusive(context),
        terms.chain is None,
    ensures
        context_rows(names, context, typed, terms, settings, generated) == argument_rows(
            names,
            context,
            terms,
            generated,
        ) + additional_rows(
            context.spec.additional_suggestions@,
            asking_with(terms, settings),
            false,
        ),
{
    assert(context_rows(names, context, typed, terms, settings, generated) =~= argument_rows(
        names,
        context,
        terms,
        generated,
    ) + additional_rows(
        context.spec.additional_suggestions@,
        asking_with(terms, settings),
        false,
    ));
}

/// Whether later answers hold earlier ones and perhaps more.
pub open spec fn continues(earlier: CompleteAnswers, later: CompleteAnswers) -> bool {
    &&& extends(earlier.specs, later.specs)
    &&& earlier.generated is Some ==> later.generated == earlier.generated
    &&& earlier.fallback is Some ==> later.fallback == earlier.fallback
}

/// A finished completion stays as it is when further answers come in.
pub proof fn law_finished_completions_stand(
    names: Seq<Seq<char>>,
    request: CompleteRequest,
    settings: Settings,
    earlier: CompleteAnswers,
    later: CompleteAnswers,
)
    requires
        continues(earlier, later),
        completed(names, request, settings, earlier) is Done,
    ensures
        completed(names, request, settings, later) == completed(names, request, settings, earlier),
{
    let typed = typed_in(completion_text(request.buffer@, request.cursor));
    if typed.tokens.len() > 0 {
        lemma_answer_kept(earlier.specs, later.specs, typed.tokens[0], 0);
        if let Some(Some(root)) = spec_answer(earlier.specs.specs@, typed.tokens[0], 0) {
            law_finished_walks_stand(
                earlier.specs,
                later.specs,
                root,
                typed.tokens,
                completed_words(typed.tokens, typed.gap),
            );
        }
    }
}

/// Insertion replaces what was typed: the search term of a result is the end of
/// the text before the caret. Only quotes that hide where a value attached to
/// an option begins are an exception.
pub proof fn law_insertion_replaces_typed_text(
    names: Seq<Seq<char>>,
    request: CompleteRequest,
    settings: Settings,
    answers: CompleteAnswers,
)
    requires
        request.buffer@.len() <= usize::MAX,
    ensures
        completed(names, request, settings, answers) matches Completed::Done(result) ==> is_tail(
            before_caret(request.buffer@, request.cursor),
            result.search_term,
        ) || ({
            let typed = typed_in(completion_text(request.buffer@, request.cursor));
            spec_answer(answers.specs.specs@, typed.tokens[0], 0) matches Some(Some(root))
                && context_of(
                answers.specs,
                root,
                typed.tokens,
                typed.gap,
                typed.term,
                typed.raw,
            ) matches Walked::Done(context) && hides_value(
                context_options(context),
                context.directives,
                typed.tokens.last(),
                typed.raw,
            )
        }),
{
    let before = before_caret(request.buffer@, request.cursor);
    let text = completion_text(request.buffer@, request.cursor);
    let typed = typed_in(text);
    law_completion_text_ends_at_the_caret(request.buffer@, request.cursor);
    lemma_word_start(text, text.len() as int);
    assert(before.skip(before.len() as int) =~= Seq::<char>::empty());
    assert(last_raw_word(text) =~= text.skip(text.len() - last_raw_word(text).len()));
    assert(is_tail(before, typed.raw)) by {
        assert(typed.raw =~= before.skip(before.len() - typed.raw.len()));
    }
    if let Completed::Done(result) = completed(names, request, settings, answers) {
        if typed.tokens.len() > 0 {
            if let Some(Some(root)) = spec_answer(answers.specs.specs@, typed.tokens[0], 0) {
                if let Walked::Done(w) = walked(
                    answers.specs,
                    root,
                    typed.tokens,
                    completed_words(typed.tokens, typed.gap),
                ) {
                    law_search_terms_are_typed(
                        reading_behind(w, typed.tokens, typed.term, typed.raw),
                        w.path_end,
                        typed.gap,
                    );
                    if is_tail(typed.raw, result.search_term) {
                        assert(result.search_term =~= before.skip(
                            before.len() - result.search_term.len(),
                        ));
                    }
                }
            }
        }
    }
}

} // verus!
