//! The argument under the caret, and the context that completion works in.
use std::sync::Arc;
use vstd::prelude::*;

use super::options::{
    arg_slot, attached_search_term, gather_options, is_dashed, positional_arg, raw_value,
    resolve_option_token, resolved, should_consume_option_value, takes_value, DirectivesView,
    ResolvedOptionToken,
};
use super::walk::{
    can_consume_options, filling, first_value, open_variadic, opt_int, options_allowed, walk_spec,
    walked, Need, OptionArgState, SpecAnswers, WalkView, Walked,
};
use crate::ir::{ArgSpec, OptionSpec, ParserDirectives, Spec};
use crate::text::{
    begins_with, chars_of, index_from, lemma_index_from_bounds, same, share, text_range, texts,
};

verus! {

/// The argument under the caret.
pub struct ActiveArg {
    pub arg: Arc<ArgSpec>,
    /// The value to filter rows by.
    pub query: String,
    /// The raw shell text that insertion replaces.
    pub search_term: String,
    /// Whether no other kind of row may stand in for the argument: a mandatory
    /// option argument, or a value attached to its option.
    pub exclusive: bool,
}

/// The argument under the caret.
#[verifier::ext_equal]
pub struct ActiveView {
    pub arg: Arc<ArgSpec>,
    pub query: Seq<char>,
    pub search_term: Seq<char>,
    pub exclusive: bool,
}

impl View for ActiveArg {
    type V = ActiveView;

    open spec fn view(&self) -> ActiveView {
        ActiveView {
            arg: self.arg,
            query: self.query@,
            search_term: self.search_term@,
            exclusive: self.exclusive,
        }
    }
}

/// The argument under the caret, where there is one.
pub open spec fn active_view(active: Option<ActiveArg>) -> Option<ActiveView> {
    match active {
        Some(active) => Some(active@),
        None => None,
    }
}

/// What the words behind a command are read with.
pub struct Reading {
    pub spec: Spec,
    pub options: Seq<Arc<OptionSpec>>,
    pub directives: DirectivesView,
    pub tokens: Seq<Seq<char>>,
    pub query: Seq<char>,
    pub raw: Seq<char>,
}

/// Where the reading of a command's words stands.
pub struct Scanned {
    pub positional: int,
    pub index: int,
    pub after_dashes: bool,
    pub option_arg: Option<(Arc<ArgSpec>, int)>,
    pub entered: bool,
    pub variadic: int,
}

/// One step of reading: on to the next word, or the argument is found.
pub enum ScanStep {
    Go(Scanned),
    Found(ActiveView),
}

impl Reading {
    /// The argument that the next positional word fills.
    pub open spec fn slot(self, at: Scanned) -> Option<int> {
        arg_slot(self.spec.args@, at.positional)
    }

    /// Whether the next word may be an option.
    pub open spec fn takes_options(self, at: Scanned) -> bool {
        options_allowed(
            self.directives,
            at.after_dashes,
            at.entered,
            at.option_arg,
            self.spec.args@,
            self.slot(at),
            at.variadic,
        )
    }

    /// The argument with the word under the caret as its value.
    pub open spec fn whole(self, arg: Arc<ArgSpec>, exclusive: bool) -> ActiveView {
        ActiveView { arg, query: self.query, search_term: self.raw, exclusive }
    }

    /// Counts a word as a value: of the option argument being filled, else of
    /// the next positional argument.
    pub open spec fn counted(self, at: Scanned) -> Scanned {
        match at.option_arg {
            Some((arg, count)) => Scanned {
                option_arg: Some((arg, count + 1)),
                index: at.index + 1,
                ..at
            },
            None => {
                let variadic = self.slot(at) matches Some(i) && self.spec.args@[i].is_variadic;
                Scanned {
                    variadic: if variadic {
                        at.variadic + 1
                    } else {
                        at.variadic
                    },
                    positional: if variadic {
                        at.positional
                    } else {
                        at.positional + 1
                    },
                    entered: true,
                    index: at.index + 1,
                    ..at
                }
            },
        }
    }

    /// Reads the next completed word. An option without arguments counts as a
    /// positional word; an option whose value is missing is the argument.
    pub open spec fn step(self, at: Scanned, limit: int) -> ScanStep {
        let token = self.tokens[at.index];
        let option = if self.takes_options(at) && is_dashed(token) {
            resolved(self.options, token, self.directives)
        } else {
            None
        };
        if token == "--"@ && self.takes_options(at) {
            ScanStep::Go(Scanned { after_dashes: true, index: at.index + 1, ..at })
        } else if let Some(r) = option {
            let args = self.options[r.option as int].args@;
            if args.len() == 0 {
                ScanStep::Go(self.counted(Scanned { option_arg: None, ..at }))
            } else if r.value is Some {
                ScanStep::Go(
                    Scanned { option_arg: open_variadic(args[0]), index: at.index + 1, ..at },
                )
            } else if at.index + 1 < limit && (takes_value(
                self.spec,
                args,
                self.tokens[at.index + 1],
            ) || !args[0].is_optional) {
                ScanStep::Go(
                    Scanned { option_arg: open_variadic(args[0]), index: at.index + 2, ..at },
                )
            } else {
                ScanStep::Found(self.whole(args[0], !args[0].is_optional))
            }
        } else {
            ScanStep::Go(self.counted(at))
        }
    }

    /// Reads the completed words before `limit`.
    pub open spec fn scan(self, at: Scanned, limit: int) -> ScanStep
        decreases limit - at.index,
    {
        if at.index >= limit {
            ScanStep::Go(at)
        } else {
            match self.step(at, limit) {
                ScanStep::Go(next) if next.index > at.index => self.scan(next, limit),
                other => other,
            }
        }
    }

    /// The argument under the caret once the completed words are read.
    pub open spec fn settle(self, at: Scanned, ends_with_space: bool) -> Option<ActiveView> {
        if let Some((arg, count)) = at.option_arg {
            Some(self.whole(arg, true))
        } else if !ends_with_space && self.tokens.len() > 0 {
            let token = self.tokens.last();
            let option = if self.takes_options(at) {
                resolved(self.options, token, self.directives)
            } else {
                None
            };
            let args = match option {
                Some(r) => self.options[r.option as int].args@,
                None => Seq::empty(),
            };
            if args.len() > 0 && option->Some_0.value is Some {
                let r = option->Some_0;
                let value = token.skip(r.value->Some_0 as int);
                Some(
                    ActiveView {
                        arg: args[0],
                        query: value,
                        search_term: raw_value(self.raw, token, r, value),
                        exclusive: true,
                    },
                )
            } else if args.len() > 0 && option->Some_0.chain is Some {
                Some(
                    ActiveView {
                        arg: args[0],
                        query: Seq::empty(),
                        search_term: Seq::empty(),
                        exclusive: !args[0].is_optional,
                    },
                )
            } else if is_dashed(token) && self.takes_options(at) {
                None
            } else {
                self.positional(at)
            }
        } else {
            self.positional(at)
        }
    }

    /// The positional argument that comes next.
    pub open spec fn positional(self, at: Scanned) -> Option<ActiveView> {
        match self.slot(at) {
            Some(i) => Some(self.whole(self.spec.args@[i], false)),
            None => None,
        }
    }

    /// The argument under the caret.
    pub open spec fn active(
        self,
        path_end: int,
        ends_with_space: bool,
    ) -> Option<ActiveView> {
        let limit = completed_words(self.tokens, ends_with_space);
        let start = Scanned {
            positional: 0,
            index: path_end,
            after_dashes: exists|i: int|
                0 <= i < path_end && i < self.tokens.len() && #[trigger] self.tokens[i] == "--"@,
            option_arg: None,
            entered: false,
            variadic: 0,
        };
        match self.scan(start, limit) {
            ScanStep::Found(active) => Some(active),
            ScanStep::Go(at) => self.settle(at, ends_with_space),
        }
    }
}

/// How many words are complete: all of them behind a gap, else all but the
/// one under the caret.
pub open spec fn completed_words(tokens: Seq<Seq<char>>, ends_with_space: bool) -> int {
    if ends_with_space || tokens.len() == 0 {
        tokens.len() as int
    } else {
        tokens.len() - 1
    }
}

/// The counters of a reading, as they are computed with.
struct ScanState {
    positional: usize,
    index: usize,
    after_double_dash: bool,
    option_arg: Option<OptionArgState>,
    entered_args: bool,
    variadic_count: usize,
}

impl View for ScanState {
    type V = Scanned;

    closed spec fn view(&self) -> Scanned {
        Scanned {
            positional: self.positional as int,
            index: self.index as int,
            after_dashes: self.after_double_dash,
            option_arg: filling(self.option_arg),
            entered: self.entered_args,
            variadic: self.variadic_count as int,
        }
    }
}

/// A reading, as it is computed with.
struct Reader<'a> {
    spec: &'a Spec,
    options: &'a Vec<Arc<OptionSpec>>,
    directives: &'a ParserDirectives,
    tokens: &'a [String],
    query: &'a str,
    raw: &'a str,
}

enum Read {
    Go(ScanState),
    Found(ActiveArg),
}

impl<'a> Reader<'a> {
    spec fn reading(&self) -> Reading {
        Reading {
            spec: *self.spec,
            options: self.options@,
            directives: self.directives@,
            tokens: texts(self.tokens@),
            query: self.query@,
            raw: self.raw@,
        }
    }

    fn takes_options(&self, at: &ScanState, slot: Option<usize>) -> (yes: bool)
        requires
            opt_int(slot) == self.reading().slot(at@),
            slot matches Some(i) ==> i < self.spec.args@.len(),
        ensures
            yes == self.reading().takes_options(at@),
    {
        can_consume_options(
            self.directives,
            at.after_double_dash,
            at.entered_args,
            &at.option_arg,
            &self.spec.args,
            slot,
            at.variadic_count,
        )
    }

    fn whole(&self, arg: &Arc<ArgSpec>, exclusive: bool) -> (active: ActiveArg)
        ensures
            active@ == self.reading().whole(*arg, exclusive),
    {
        ActiveArg {
            arg: share(arg),
            query: self.query.to_owned(),
            search_term: self.raw.to_owned(),
            exclusive,
        }
    }

    fn count(&self, at: ScanState, slot: Option<usize>) -> (next: ScanState)
        requires
            opt_int(slot) == self.reading().slot(at@),
            slot matches Some(i) ==> i < self.spec.args@.len(),
            at.index < usize::MAX,
            at.positional <= at.index,
            at.variadic_count <= at.index,
            at.option_arg matches Some(s) ==> s.count <= at.index,
        ensures
            next@ == self.reading().counted(at@),
            next.index == at.index + 1,
            next.positional <= next.index,
            next.variadic_count <= next.index,
            next.option_arg matches Some(s) ==> s.count <= next.index,
    {
        match &at.option_arg {
            Some(filled) => {
                let more = OptionArgState { arg: share(&filled.arg), count: filled.count + 1 };
                ScanState { option_arg: Some(more), index: at.index + 1, ..at }
            },
            None => {
                let variadic = match slot {
                    Some(i) => self.spec.args[i].is_variadic,
                    None => false,
                };
                ScanState {
                    variadic_count: if variadic {
                        at.variadic_count + 1
                    } else {
                        at.variadic_count
                    },
                    positional: if variadic {
                        at.positional
                    } else {
                        at.positional + 1
                    },
                    entered_args: true,
                    index: at.index + 1,
                    ..at
                }
            },
        }
    }

    fn step(&self, at: ScanState, limit: usize) -> (read: Read)
        requires
            at.index < limit <= self.tokens@.len(),
            at.positional <= at.index,
            at.variadic_count <= at.index,
            at.option_arg matches Some(s) ==> s.count <= at.index,
        ensures
            match read {
                Read::Go(next) => self.reading().step(at@, limit as int) == ScanStep::Go(next@)
                    && at.index < next.index <= limit && next.positional <= next.index
                    && next.variadic_count <= next.index && (next.option_arg matches Some(s)
                    ==> s.count <= next.index),
                Read::Found(active) => self.reading().step(at@, limit as int) == ScanStep::Found(
                    active@,
                ),
            },
    {
        let token = &self.tokens[at.index];
        let w = chars_of(token);
        proof {
            assert(texts(self.tokens@)[at.index as int] == token@);
            reveal_strlit("--");
        }
        let slot = positional_arg(&self.spec.args, at.positional);
        let takes_options = self.takes_options(&at, slot);
        if takes_options && same(token, "--") {
            return Read::Go(ScanState { after_double_dash: true, index: at.index + 1, ..at });
        }
        if takes_options && w.len() > 0 && w[0] == '-' {
            if let Some(r) = resolve_option_token(self.options, &w, self.directives) {
                let option = &self.options[r.option];
                if option.args.len() == 0 {
                    let cleared = ScanState { option_arg: None, ..at };
                    return Read::Go(self.count(cleared, slot));
                }
                let arg = &option.args[0];
                if r.value.is_some() {
                    return Read::Go(
                        ScanState { option_arg: first_value(arg), index: at.index + 1, ..at },
                    );
                }
                if at.index + 1 < limit {
                    let next = &self.tokens[at.index + 1];
                    proof {
                        assert(texts(self.tokens@)[at.index + 1] == next@);
                    }
                    if should_consume_option_value(self.spec, option, next) || !arg.is_optional {
                        return Read::Go(
                            ScanState { option_arg: first_value(arg), index: at.index + 2, ..at },
                        );
                    }
                }
                return Read::Found(self.whole(arg, !arg.is_optional));
            }
        }
        Read::Go(self.count(at, slot))
    }

    fn positional(&self, slot: Option<usize>) -> (active: Option<ActiveArg>)
        requires
            slot matches Some(i) ==> i < self.spec.args@.len(),
        ensures
            active_view(active) == match slot {
                Some(i) => Some(self.reading().whole(self.spec.args@[i as int], false)),
                None => None,
            },
    {
        match slot {
            Some(i) => Some(self.whole(&self.spec.args[i], false)),
            None => None,
        }
    }

    fn settle(&self, at: ScanState, ends_with_space: bool) -> (active: Option<ActiveArg>)
        ensures
            active_view(active) == self.reading().settle(at@, ends_with_space),
    {
        if let Some(filled) = &at.option_arg {
            return Some(self.whole(&filled.arg, true));
        }
        let slot = positional_arg(&self.spec.args, at.positional);
        if ends_with_space || self.tokens.len() == 0 {
            return self.positional(slot);
        }
        let token = &self.tokens[self.tokens.len() - 1];
        let w = chars_of(token);
        proof {
            assert(texts(self.tokens@).last() == token@);
        }
        if !self.takes_options(&at, slot) {
            return self.positional(slot);
        }
        if let Some(r) = resolve_option_token(self.options, &w, self.directives) {
            let option = &self.options[r.option];
            if option.args.len() > 0 {
                let arg = &option.args[0];
                if let Some(v) = r.value {
                    let n = w.len();
                    let value = text_range(&w, v, n);
                    proof {
                        assert(w@.skip(v as int) =~= w@.subrange(v as int, n as int));
                    }
                    let raw = attached_search_term(self.raw, &w, r, &value);
                    return Some(
                        ActiveArg {
                            arg: share(arg),
                            query: value,
                            search_term: raw,
                            exclusive: true,
                        },
                    );
                }
                if r.chain.is_some() {
                    return Some(
                        ActiveArg {
                            arg: share(arg),
                            query: String::new(),
                            search_term: String::new(),
                            exclusive: !arg.is_optional,
                        },
                    );
                }
            }
        }
        if w.len() > 0 && w[0] == '-' {
            return None;
        }
        self.positional(slot)
    }
}

/// The argument under the caret, given the command that the words led to and
/// the first word behind them.
pub fn active_arg(
    spec: &Spec,
    options: &Vec<Arc<OptionSpec>>,
    tokens: &[String],
    path_end: usize,
    ends_with_space: bool,
    query: &str,
    raw_query: &str,
    directives: &ParserDirectives,
) -> (active: Option<ActiveArg>)
    ensures
        active_view(active) == (Reading {
            spec: *spec,
            options: options@,
            directives: directives@,
            tokens: texts(tokens@),
            query: query@,
            raw: raw_query@,
        }).active(path_end as int, ends_with_space),
{
    let reader = Reader { spec, options, directives, tokens, query, raw: raw_query };
    let limit: usize = if ends_with_space || tokens.len() == 0 {
        tokens.len()
    } else {
        tokens.len() - 1
    };
    let mut after_double_dash = false;
    let mut i: usize = 0;
    while i < path_end && i < tokens.len()
        invariant
            i <= path_end,
            i <= tokens@.len(),
            after_double_dash == exists|k: int|
                0 <= k < i && k < tokens@.len() && #[trigger] texts(tokens@)[k] == "--"@,
        decreases tokens@.len() - i,
    {
        proof {
            assert(texts(tokens@)[i as int] == tokens@[i as int]@);
        }
        if same(&tokens[i], "--") {
            after_double_dash = true;
        }
        i += 1;
    }
    proof {
        assert(after_double_dash == exists|k: int|
            0 <= k < path_end && k < texts(tokens@).len() && #[trigger] texts(tokens@)[k] == "--"@);
    }
    let mut at = ScanState {
        positional: 0,
        index: path_end,
        after_double_dash,
        option_arg: None,
        entered_args: false,
        variadic_count: 0,
    };
    let ghost reading = reader.reading();
    let ghost stated = reading.scan(at@, limit as int);
    while at.index < limit
        invariant
            limit <= tokens@.len(),
            reader.tokens@ == tokens@,
            reading == reader.reading(),
            stated == reading.scan(at@, limit as int),
            reading.active(path_end as int, ends_with_space) == match stated {
                ScanStep::Found(active) => Some(active),
                ScanStep::Go(at) => reading.settle(at, ends_with_space),
            },
            reading == (Reading {
                spec: *spec,
                options: options@,
                directives: directives@,
                tokens: texts(tokens@),
                query: query@,
                raw: raw_query@,
            }),
            at.positional <= at.index,
            at.variadic_count <= at.index,
            at.option_arg matches Some(s) ==> s.count <= at.index,
        decreases limit - at.index,
    {
        match reader.step(at, limit) {
            Read::Found(active) => {
                return Some(active);
            },
            Read::Go(next) => {
                at = next;
            },
        }
    }
    reader.settle(at, ends_with_space)
}

/// What completion works with.
pub struct CompletionContext {
    pub spec: Arc<Spec>,
    pub active_arg: Option<ActiveArg>,
    /// The persistent options after walking through parents and loaded specs.
    pub persistent_options: Vec<Arc<OptionSpec>>,
    /// The options passed to the command reached.
    pub passed_options: Vec<Arc<OptionSpec>>,
    pub parser_directives: ParserDirectives,
    /// Whether an option may come next.
    pub options_allowed: bool,
}

/// What completion works with.
pub struct ContextView {
    pub spec: Arc<Spec>,
    pub active: Option<ActiveView>,
    pub persistent: Seq<Arc<OptionSpec>>,
    pub passed: Seq<Arc<OptionSpec>>,
    pub directives: DirectivesView,
    pub options_allowed: bool,
}

impl View for CompletionContext {
    type V = ContextView;

    open spec fn view(&self) -> ContextView {
        ContextView {
            spec: self.spec,
            active: active_view(self.active_arg),
            persistent: self.persistent_options@,
            passed: self.passed_options@,
            directives: self.parser_directives@,
            options_allowed: self.options_allowed,
        }
    }
}

/// What the words behind a walk are read with.
pub open spec fn reading_behind(
    w: WalkView,
    tokens: Seq<Seq<char>>,
    query: Seq<char>,
    raw: Seq<char>,
) -> Reading {
    Reading {
        spec: *w.current,
        options: w.options(),
        directives: w.directives,
        tokens,
        query,
        raw,
    }
}

/// The context behind a finished walk.
pub open spec fn context_behind(
    w: WalkView,
    tokens: Seq<Seq<char>>,
    ends_with_space: bool,
    query: Seq<char>,
    raw: Seq<char>,
) -> ContextView {
    ContextView {
        spec: w.current,
        active: reading_behind(w, tokens, query, raw).active(w.path_end, ends_with_space),
        persistent: w.persistent,
        passed: w.passed,
        directives: w.directives,
        options_allowed: w.takes_options(),
    }
}

/// The context at the caret: the walk over the completed words, and the
/// argument under the caret.
pub open spec fn context_of(
    answers: SpecAnswers,
    root: Arc<Spec>,
    tokens: Seq<Seq<char>>,
    ends_with_space: bool,
    query: Seq<char>,
    raw: Seq<char>,
) -> Walked<ContextView> {
    match walked(answers, root, tokens, completed_words(tokens, ends_with_space)) {
        Walked::Needs(need) => Walked::Needs(need),
        Walked::Done(w) => Walked::Done(context_behind(w, tokens, ends_with_space, query, raw)),
    }
}

/// Computes [`context_of`].
pub fn resolve_context(
    answers: &SpecAnswers,
    root: Arc<Spec>,
    tokens: &[String],
    ends_with_space: bool,
    query: &str,
    raw_query: &str,
) -> (out: Result<CompletionContext, Need>)
    ensures
        match out {
            Ok(context) => context_of(
                *answers,
                root,
                texts(tokens@),
                ends_with_space,
                query@,
                raw_query@,
            ) == Walked::Done(context@),
            Err(need) => context_of(
                *answers,
                root,
                texts(tokens@),
                ends_with_space,
                query@,
                raw_query@,
            ) == Walked::<ContextView>::Needs(need@),
        },
{
    let limit: usize = if ends_with_space || tokens.len() == 0 {
        tokens.len()
    } else {
        tokens.len() - 1
    };
    let state = match walk_spec(answers, root, tokens, limit) {
        Err(need) => {
            return Err(need);
        },
        Ok(state) => state,
    };
    let options = gather_options(&state.current.options, &state.persistent);
    let active = active_arg(
        &state.current,
        &options,
        tokens,
        state.path_end,
        ends_with_space,
        query,
        raw_query,
        &state.directives,
    );
    let slot = positional_arg(&state.current.args, state.positional);
    let options_allowed = can_consume_options(
        &state.directives,
        state.after_double_dash,
        state.entered_args,
        &state.option_arg,
        &state.current.args,
        slot,
        state.variadic_count,
    );
    Ok(
        CompletionContext {
            spec: state.current,
            active_arg: active,
            persistent_options: state.persistent,
            passed_options: state.passed,
            parser_directives: state.directives,
            options_allowed,
        },
    )
}

// ---------------------------------------------------------------------------
// Laws
// ---------------------------------------------------------------------------
/// Whether the word under the caret has an attached value whose beginning the
/// raw word does not show, because of quotes.
pub open spec fn hides_value(
    options: Seq<Arc<OptionSpec>>,
    directives: DirectivesView,
    token: Seq<char>,
    raw: Seq<char>,
) -> bool {
    resolved(options, token, directives) matches Some(r) && r.value is Some && match (
        r.chain,
        r.separator,
    ) {
        (Some(prefix), _) => !(prefix <= token.len() && begins_with(
            raw,
            token.take(prefix as int),
        )),
        (None, Some(separator)) => index_from(raw, separator, 0) >= raw.len(),
        (None, None) => true,
    }
}

/// Whether a text ends in another.
pub open spec fn is_tail(s: Seq<char>, tail: Seq<char>) -> bool {
    tail.len() <= s.len() && tail == s.skip(s.len() - tail.len())
}

proof fn lemma_found_whole(reading: Reading, at: Scanned, limit: int)
    ensures
        reading.scan(at, limit) matches ScanStep::Found(active) ==> active.search_term
            == reading.raw,
    decreases limit - at.index,
{
    if at.index < limit {
        if let ScanStep::Go(next) = reading.step(at, limit) {
            if next.index > at.index {
                lemma_found_whole(reading, next, limit);
            }
        }
    }
}

/// The search term of an argument is the end of the raw word under the caret,
/// so that insertion replaces exactly what was typed of it; only quotes that
/// hide where an attached value begins are an exception.
pub proof fn law_search_terms_are_typed(reading: Reading, path_end: int, ends_with_space: bool)
    ensures
        reading.active(path_end, ends_with_space) matches Some(active) ==> is_tail(
            reading.raw,
            active.search_term,
        ) || (reading.tokens.len() > 0 && hides_value(
            reading.options,
            reading.directives,
            reading.tokens.last(),
            reading.raw,
        )),
{
    let raw = reading.raw;
    let limit = completed_words(reading.tokens, ends_with_space);
    let start = Scanned {
        positional: 0,
        index: path_end,
        after_dashes: exists|i: int|
            0 <= i < path_end && i < reading.tokens.len() && #[trigger] reading.tokens[i] == "--"@,
        option_arg: None,
        entered: false,
        variadic: 0,
    };
    lemma_found_whole(reading, start, limit);
    assert(raw.skip(0) =~= raw);
    assert(raw.skip(raw.len() as int) =~= Seq::<char>::empty());
    if let ScanStep::Go(at) = reading.scan(start, limit) {
        if !ends_with_space && reading.tokens.len() > 0 {
            let token = reading.tokens.last();
            if let Some(r) = resolved(reading.options, token, reading.directives) {
                if r.value is Some && !hides_value(reading.options, reading.directives, token, raw) {
                    let value = token.skip(r.value->Some_0 as int);
                    lemma_raw_value_is_tail(raw, token, r, value);
                }
            }
        }
    }
}

proof fn lemma_raw_value_is_tail(
    raw: Seq<char>,
    token: Seq<char>,
    r: ResolvedOptionToken,
    value: Seq<char>,
)
    requires
        match (r.chain, r.separator) {
            (Some(prefix), _) => begins_with(raw, token.take(prefix as int)) && prefix
                <= token.len(),
            (None, Some(separator)) => index_from(raw, separator, 0) < raw.len(),
            (None, None) => false,
        },
    ensures
        is_tail(raw, raw_value(raw, token, r, value)),
{
    match (r.chain, r.separator) {
        (Some(prefix), _) => {
            assert(token.take(prefix as int).len() == prefix);
        },
        (None, Some(separator)) => {
            lemma_index_from_bounds(raw, separator, 0);
        },
        (None, None) => {},
    }
}

} // verus!
