//! Requests, results and the rows in them.
use std::sync::Arc;
use vstd::prelude::*;

use crate::lookup::shell::{completion_buffer, completion_text, tokenize, words};
use crate::text::{
    chars_of, copy_texts, opt_str, opt_text, rfind, rfind_spec, same, text_range, texts,
};

verus! {

// ---------------------------------------------------------------------------
// Rows
// ---------------------------------------------------------------------------
/// A row offered to the user.
#[derive(Debug, Default, PartialEq, Eq)]
pub struct Suggestion {
    pub name: String,
    pub description: String,
    pub kind: String,
    pub args_hint: String,
    /// Explicit shell text, separate from the name: rows often display a
    /// friendly label but insert a command, an option alias, or a history line.
    pub insert_value: Option<String>,
    pub display_name: Option<String>,
    /// The first spelling of the source row, which decides whether an exact
    /// alias may be executed.
    pub primary_name: Option<String>,
    pub separator_to_add: Option<String>,
    pub should_add_space: bool,
    pub hidden: bool,
    pub priority: i64,
    pub icon: Option<String>,
    pub original_type: Option<String>,
    /// The term that the row is matched against, where it differs from the
    /// result's. One result can hold rows with different terms.
    pub query_term: Option<String>,
    pub is_dangerous: bool,
    /// Whether the row needs an argument, and so cannot be executed as it is.
    pub requires_arg: bool,
    /// Every spelling of the source row.
    pub alias_names: Vec<String>,
}

/// What a row holds.
#[verifier::ext_equal]
pub struct SuggestionView {
    pub name: Seq<char>,
    pub description: Seq<char>,
    pub kind: Seq<char>,
    pub args_hint: Seq<char>,
    pub insert_value: Option<Seq<char>>,
    pub display_name: Option<Seq<char>>,
    pub primary_name: Option<Seq<char>>,
    pub separator_to_add: Option<Seq<char>>,
    pub should_add_space: bool,
    pub hidden: bool,
    pub priority: i64,
    pub icon: Option<Seq<char>>,
    pub original_type: Option<Seq<char>>,
    pub query_term: Option<Seq<char>>,
    pub is_dangerous: bool,
    pub requires_arg: bool,
    pub alias_names: Seq<Seq<char>>,
}

impl View for Suggestion {
    type V = SuggestionView;

    open spec fn view(&self) -> SuggestionView {
        SuggestionView {
            name: self.name@,
            description: self.description@,
            kind: self.kind@,
            args_hint: self.args_hint@,
            insert_value: opt_text(self.insert_value),
            display_name: opt_text(self.display_name),
            primary_name: opt_text(self.primary_name),
            separator_to_add: opt_text(self.separator_to_add),
            should_add_space: self.should_add_space,
            hidden: self.hidden,
            priority: self.priority,
            icon: opt_text(self.icon),
            original_type: opt_text(self.original_type),
            query_term: opt_text(self.query_term),
            is_dangerous: self.is_dangerous,
            requires_arg: self.requires_arg,
            alias_names: texts(self.alias_names@),
        }
    }
}

/// What the rows of a list hold.
pub open spec fn rows(list: Seq<Suggestion>) -> Seq<SuggestionView> {
    Seq::new(list.len(), |i: int| list[i]@)
}

/// A row with a name, a description and a kind, and nothing else set.
pub open spec fn new_row(name: Seq<char>, description: Seq<char>, kind: Seq<char>) -> SuggestionView {
    SuggestionView {
        name,
        description,
        kind,
        args_hint: Seq::empty(),
        insert_value: None,
        display_name: None,
        primary_name: None,
        separator_to_add: None,
        should_add_space: false,
        hidden: false,
        priority: 50,
        icon: None,
        original_type: None,
        query_term: None,
        is_dangerous: false,
        requires_arg: false,
        alias_names: Seq::empty(),
    }
}

/// A priority in the range 0 to 100; zero stands for the default.
pub open spec fn normal_priority(priority: i64) -> i64 {
    if priority == 0 {
        50
    } else if priority < 0 {
        0
    } else if priority > 100 {
        100
    } else {
        priority
    }
}

/// Computes [`normal_priority`].
pub fn normalize_priority(priority: i64) -> (normal: i64)
    ensures
        normal == normal_priority(priority),
{
    if priority == 0 {
        50
    } else if priority < 0 {
        0
    } else if priority > 100 {
        100
    } else {
        priority
    }
}

/// The normalized priority of a row whose source may not state one.
pub open spec fn priority_or_default(priority: Option<i64>) -> i64 {
    match priority {
        Some(priority) => normal_priority(priority),
        None => 50,
    }
}

impl Clone for Suggestion {
    fn clone(&self) -> (copy: Suggestion)
        ensures
            copy@ == self@,
    {
        Suggestion {
            name: self.name.clone(),
            description: self.description.clone(),
            kind: self.kind.clone(),
            args_hint: self.args_hint.clone(),
            insert_value: self.insert_value.clone(),
            display_name: self.display_name.clone(),
            primary_name: self.primary_name.clone(),
            separator_to_add: self.separator_to_add.clone(),
            should_add_space: self.should_add_space,
            hidden: self.hidden,
            priority: self.priority,
            icon: self.icon.clone(),
            original_type: self.original_type.clone(),
            query_term: self.query_term.clone(),
            is_dangerous: self.is_dangerous,
            requires_arg: self.requires_arg,
            alias_names: copy_texts(&self.alias_names),
        }
    }
}

impl Suggestion {
    /// A row with the default priority.
    pub fn new(name: &str, description: &str, kind: &str) -> (row: Suggestion)
        ensures
            row@ == new_row(name@, description@, kind@),
    {
        let row = Suggestion {
            name: name.to_owned(),
            description: description.to_owned(),
            kind: kind.to_owned(),
            args_hint: String::new(),
            insert_value: None,
            display_name: None,
            primary_name: None,
            separator_to_add: None,
            should_add_space: false,
            hidden: false,
            priority: 50,
            icon: None,
            original_type: None,
            query_term: None,
            is_dangerous: false,
            requires_arg: false,
            alias_names: Vec::new(),
        };
        proof {
            assert(row@ =~= new_row(name@, description@, kind@));
        }
        row
    }

    /// The row with every spelling of its source.
    pub fn with_alias_names(self, names: Vec<String>) -> (row: Suggestion)
        ensures
            row@ == (SuggestionView { alias_names: texts(names@), ..self@ }),
    {
        Suggestion { alias_names: names, ..self }
    }

    /// The row with a hint of its arguments.
    pub fn with_args_hint(self, hint: String) -> (row: Suggestion)
        ensures
            row@ == (SuggestionView { args_hint: hint@, ..self@ }),
    {
        Suggestion { args_hint: hint, ..self }
    }

    /// The row with the presentation of its source.
    pub fn with_meta(
        self,
        insert_value: Option<String>,
        display_name: Option<String>,
        separator_to_add: Option<String>,
        should_add_space: bool,
        hidden: bool,
        priority: Option<i64>,
        icon: Option<String>,
    ) -> (row: Suggestion)
        ensures
            row@ == (SuggestionView {
                insert_value: opt_text(insert_value),
                display_name: opt_text(display_name),
                separator_to_add: opt_text(separator_to_add),
                should_add_space,
                hidden,
                priority: priority_or_default(priority),
                icon: opt_text(icon),
                ..self@
            }),
    {
        let priority: i64 = match priority {
            Some(priority) => normalize_priority(priority),
            None => 50,
        };
        Suggestion {
            insert_value,
            display_name,
            separator_to_add,
            should_add_space,
            hidden,
            priority,
            icon,
            ..self
        }
    }

    /// The row marked as dangerous or not.
    pub fn with_dangerous(self, dangerous: bool) -> (row: Suggestion)
        ensures
            row@ == (SuggestionView { is_dangerous: dangerous, ..self@ }),
    {
        Suggestion { is_dangerous: dangerous, ..self }
    }

    /// The row with explicit shell text.
    pub fn with_insert_value(self, value: &str) -> (row: Suggestion)
        ensures
            row@ == (SuggestionView { insert_value: Some(value@), ..self@ }),
    {
        Suggestion { insert_value: Some(value.to_owned()), ..self }
    }

    /// The row with the first spelling of its source.
    pub fn with_primary_name(self, value: Option<String>) -> (row: Suggestion)
        ensures
            row@ == (SuggestionView { primary_name: opt_text(value), ..self@ }),
    {
        Suggestion { primary_name: value, ..self }
    }

    /// The row with the type that it had before a wrapper changed it.
    pub fn with_original_type(self, original_type: Option<String>) -> (row: Suggestion)
        ensures
            row@ == (SuggestionView { original_type: opt_text(original_type), ..self@ }),
    {
        Suggestion { original_type, ..self }
    }

    /// The row with a term of its own to match.
    pub fn with_query_term(self, query_term: Option<String>) -> (row: Suggestion)
        ensures
            row@ == (SuggestionView { query_term: opt_text(query_term), ..self@ }),
    {
        Suggestion { query_term, ..self }
    }

    /// The row with a priority, normalized.
    pub fn with_priority(self, priority: i64) -> (row: Suggestion)
        ensures
            row@ == (SuggestionView { priority: normal_priority(priority), ..self@ }),
    {
        Suggestion { priority: normalize_priority(priority), ..self }
    }
}

/// Copies a list of rows.
pub fn copy_rows(list: &[Suggestion]) -> (out: Vec<Suggestion>)
    ensures
        rows(out@) == rows(list@),
{
    let mut out: Vec<Suggestion> = Vec::new();
    let mut i: usize = 0;
    while i < list.len()
        invariant
            i <= list@.len(),
            rows(out@) == rows(list@).take(i as int),
        decreases list@.len() - i,
    {
        let ghost had = out@;
        out.push(list[i].clone());
        proof {
            assert(rows(out@) =~= rows(had).push(list@[i as int]@));
            assert(rows(list@).take(i + 1) =~= rows(list@).take(i as int).push(
                rows(list@)[i as int],
            ));
        }
        i += 1;
    }
    proof {
        assert(rows(list@).take(list@.len() as int) =~= rows(list@));
    }
    out
}

/// Appends rows to a list.
pub fn extend_rows(list: &mut Vec<Suggestion>, more: Vec<Suggestion>)
    ensures
        rows(final(list)@) == rows(old(list)@) + rows(more@),
{
    let mut tail = more;
    let ghost added = more@;
    list.append(&mut tail);
    proof {
        assert(rows(list@) =~= rows(old(list)@) + rows(added));
    }
}

/// A normalized priority lies between 0 and 100 and is kept by normalizing
/// again, unless it is 0, which stands for the default.
pub proof fn law_priorities_are_normal(priority: i64)
    ensures
        0 <= normal_priority(priority) <= 100,
        normal_priority(priority) != 0 ==> normal_priority(normal_priority(priority))
            == normal_priority(priority),
        1 <= priority <= 100 ==> normal_priority(priority) == priority,
{
}

// ---------------------------------------------------------------------------
// Query terms
// ---------------------------------------------------------------------------
/// The part of a search term that rows are matched against: what stands behind
/// the first character of the last separator. Without a separator, or where it
/// does not occur, the whole term; the empty separator leaves nothing.
pub open spec fn term_after(search_term: Seq<char>, separator: Option<Seq<char>>) -> Seq<char> {
    match separator {
        None => search_term,
        Some(sep) => if sep.len() == 0 {
            Seq::empty()
        } else {
            match rfind_spec(search_term, sep) {
                None => search_term,
                Some(i) => search_term.skip(i + 1),
            }
        },
    }
}

/// Computes [`term_after`].
pub fn query_term_for(search_term: &str, separator: Option<&str>) -> (term: String)
    ensures
        term@ == term_after(search_term@, opt_str(separator)),
{
    let separator = match separator {
        None => {
            return search_term.to_owned();
        },
        Some(separator) => separator,
    };
    if separator.is_empty() {
        return String::new();
    }
    let s = chars_of(search_term);
    let p = chars_of(separator);
    match rfind(&s, &p) {
        None => search_term.to_owned(),
        Some(i) => {
            let n = s.len();
            proof {
                assert(i + p@.len() <= n);
                assert(s@.skip(i + 1) =~= s@.subrange(i + 1, n as int));
            }
            text_range(&s, i + 1, n)
        },
    }
}

/// What query-term hooks returned for the search term at hand: the hook, and
/// its result where it gave one.
pub struct HookTerms {
    pub answers: Vec<(String, Option<String>)>,
}

/// The result of a hook, where it gave one.
pub open spec fn hook_term(answers: Seq<(String, Option<String>)>, hook: Seq<char>, i: int) -> Option<
    Seq<char>,
>
    decreases answers.len() - i,
{
    if i < 0 || i >= answers.len() {
        None
    } else if answers[i].0@ == hook {
        opt_text(answers[i].1)
    } else {
        hook_term(answers, hook, i + 1)
    }
}

impl HookTerms {
    /// The result of a hook, where it gave one.
    pub fn term(&self, hook: &str) -> (term: Option<String>)
        ensures
            opt_text(term) == hook_term(self.answers@, hook@, 0),
    {
        let mut i: usize = 0;
        while i < self.answers.len()
            invariant
                i <= self.answers@.len(),
                hook_term(self.answers@, hook@, 0) == hook_term(self.answers@, hook@, i as int),
            decreases self.answers@.len() - i,
        {
            if same(&self.answers[i].0, hook) {
                return self.answers[i].1.clone();
            }
            i += 1;
        }
        None
    }
}

/// The query term: by the separator where there is one, else by a hook where
/// hooks can run. A hook that gives nothing leaves the whole search term.
pub open spec fn term_with_hook(
    search_term: Seq<char>,
    separator: Option<Seq<char>>,
    hook: Option<Seq<char>>,
    hooks: Option<HookTerms>,
) -> Seq<char> {
    match (separator, hook, hooks) {
        (None, Some(hook), Some(hooks)) => match hook_term(hooks.answers@, hook, 0) {
            Some(term) if hook.len() > 0 => term,
            _ => search_term,
        },
        _ => term_after(search_term, separator),
    }
}

/// The hooks that are at hand, as a value.
pub open spec fn hooks_at_hand(hooks: Option<&HookTerms>) -> Option<HookTerms> {
    match hooks {
        Some(hooks) => Some(*hooks),
        None => None,
    }
}

/// Computes [`term_with_hook`].
pub fn query_term_with_hook(
    search_term: &str,
    separator: Option<&str>,
    js_hook: Option<&str>,
    hooks: Option<&HookTerms>,
) -> (term: String)
    ensures
        term@ == term_with_hook(
            search_term@,
            opt_str(separator),
            opt_str(js_hook),
            hooks_at_hand(hooks),
        ),
        separator is Some ==> term@ == term_after(search_term@, opt_str(separator)),
{
    if separator.is_none() {
        if let (Some(hook), Some(hooks)) = (js_hook, hooks) {
            if !hook.is_empty() {
                if let Some(term) = hooks.term(hook) {
                    return term;
                }
            }
        }
    }
    query_term_for(search_term, separator)
}

/// The term to match one static row against, and the term that the row
/// carries. A rule of the row's own comes first; a shortcut is matched without
/// a leading `?`; any other row takes the query and carries no term.
pub open spec fn row_term(
    kind: Seq<char>,
    separator: Option<Seq<char>>,
    hook: Option<Seq<char>>,
    query: Seq<char>,
    search_term: Seq<char>,
    hooks: Option<HookTerms>,
) -> (Seq<char>, Option<Seq<char>>) {
    if separator is Some || hook is Some {
        let term = term_with_hook(search_term, separator, hook, hooks);
        (term, Some(term))
    } else if kind == "shortcut"@ && search_term.len() > 0 && search_term[0] == '?' {
        (search_term.skip(1), Some(search_term.skip(1)))
    } else {
        (query, None)
    }
}

/// Computes [`row_term`].
pub fn suggestion_query_term_with_hook(
    kind: &str,
    explicit_separator: Option<&str>,
    js_hook: Option<&str>,
    query: &str,
    search_term: &str,
    hooks: Option<&HookTerms>,
) -> (terms: (String, Option<String>))
    ensures
        (terms.0@, opt_text(terms.1)) == row_term(
            kind@,
            opt_str(explicit_separator),
            opt_str(js_hook),
            query@,
            search_term@,
            hooks_at_hand(hooks),
        ),
{
    if explicit_separator.is_some() || js_hook.is_some() {
        let term = query_term_with_hook(search_term, explicit_separator, js_hook, hooks);
        return (term.clone(), Some(term));
    }
    if same(kind, "shortcut") {
        let s = chars_of(search_term);
        if s.len() > 0 && s[0] == '?' {
            proof {
                assert(s@.skip(1) =~= s@.subrange(1, s@.len() as int));
            }
            let term = text_range(&s, 1, s.len());
            return (term.clone(), Some(term));
        }
    }
    (query.to_owned(), None)
}

/// The hook that a query term depends on: one that is named, where no separator
/// comes before it.
pub open spec fn hook_in_use(separator: Option<Seq<char>>, hook: Option<Seq<char>>) -> Option<
    Seq<char>,
> {
    match (separator, hook) {
        (None, Some(hook)) => if hook.len() > 0 {
            Some(hook)
        } else {
            None
        },
        _ => None,
    }
}

/// Computes [`hook_in_use`].
pub fn hook_to_run<'a>(separator: Option<&str>, hook: Option<&'a str>) -> (found: Option<&'a str>)
    ensures
        opt_str(found) == hook_in_use(opt_str(separator), opt_str(hook)),
{
    match (separator, hook) {
        (None, Some(hook)) => if hook.is_empty() {
            None
        } else {
            Some(hook)
        },
        _ => None,
    }
}

/// Without a hook in use, no hook's answer makes a difference.
pub proof fn law_unused_hooks_do_not_count(
    search_term: Seq<char>,
    separator: Option<Seq<char>>,
    hook: Option<Seq<char>>,
    hooks: Option<HookTerms>,
)
    requires
        hook_in_use(separator, hook) is None,
    ensures
        term_with_hook(search_term, separator, hook, hooks) == term_after(search_term, separator),
{
}

/// A separator decides the query term alone: hooks are read only without one.
pub proof fn law_separators_come_before_hooks(
    search_term: Seq<char>,
    separator: Option<Seq<char>>,
    hook: Option<Seq<char>>,
    hooks: Option<HookTerms>,
)
    requires
        separator is Some,
    ensures
        term_with_hook(search_term, separator, hook, hooks) == term_after(search_term, separator),
{
}

/// The query term is always a tail of the search term.
pub proof fn law_query_term_is_a_tail(search_term: Seq<char>, separator: Option<Seq<char>>)
    ensures
        ({
            let term = term_after(search_term, separator);
            term.len() <= search_term.len() && term == search_term.skip(
                search_term.len() - term.len(),
            )
        }),
{
    let term = term_after(search_term, separator);
    if let Some(sep) = separator {
        crate::text::lemma_rfind_bounds(search_term, sep, search_term.len() - sep.len());
    }
    assert(term =~= search_term.skip(search_term.len() - term.len()));
}

// ---------------------------------------------------------------------------
// Requests and results
// ---------------------------------------------------------------------------
/// A request for completions at the caret of an edit buffer.
#[derive(Debug)]
pub struct CompleteRequest {
    pub buffer: String,
    pub cwd: String,
    /// The caret in bytes; absent means at the end.
    pub cursor: Option<u32>,
    pub fuzzy: bool,
    pub history_only: bool,
    pub include_history: bool,
    pub suggest_first_token: bool,
    /// Shell executable, for selecting its history.
    pub current_shell: Option<String>,
    /// Current process, used where the shell is not known.
    pub current_process: Option<String>,
    /// The environment of the shell.
    pub environment_variables: Arc<Vec<(String, String)>>,
    /// Raw `alias` output of the shell.
    pub alias: Option<String>,
}

impl Default for CompleteRequest {
    fn default() -> (request: CompleteRequest)
        ensures
            request.buffer@.len() == 0,
            request.cwd@.len() == 0,
            request.cursor is None,
            !request.fuzzy,
            !request.history_only,
            request.include_history,
            !request.suggest_first_token,
            request.current_shell is None,
            request.current_process is None,
            request.environment_variables@.len() == 0,
            request.alias is None,
    {
        CompleteRequest {
            buffer: String::new(),
            cwd: String::new(),
            cursor: None,
            fuzzy: false,
            history_only: false,
            include_history: true,
            suggest_first_token: false,
            current_shell: None,
            current_process: None,
            environment_variables: Arc::new(Vec::new()),
            alias: None,
        }
    }
}

/// The argument being completed.
#[derive(Debug, Default)]
pub struct CurrentArg {
    pub name: String,
    pub description: String,
}

/// The rows for a request.
#[derive(Debug, Default)]
pub struct CompleteResult {
    pub suggestions: Vec<Suggestion>,
    /// Whether matching was fuzzy after the command or argument had its say.
    pub fuzzy: bool,
    /// The raw shell text under the caret, which insertion replaces.
    pub search_term: String,
    /// The term that rows were matched against.
    pub match_term: String,
    /// The argument being completed, to describe it where no row is selected.
    pub current_arg: Option<CurrentArg>,
    /// Whether generators were held back and should be asked again after
    /// `debounce_ms`.
    pub pending_generators: bool,
    pub debounce_ms: Option<i64>,
}

/// What a result holds.
pub struct ResultView {
    pub suggestions: Seq<SuggestionView>,
    pub fuzzy: bool,
    pub search_term: Seq<char>,
    pub match_term: Seq<char>,
    pub current_arg: Option<(Seq<char>, Seq<char>)>,
    pub pending_generators: bool,
    pub debounce_ms: Option<i64>,
}

impl View for CompleteResult {
    type V = ResultView;

    open spec fn view(&self) -> ResultView {
        ResultView {
            suggestions: rows(self.suggestions@),
            fuzzy: self.fuzzy,
            search_term: self.search_term@,
            match_term: self.match_term@,
            current_arg: match self.current_arg {
                Some(arg) => Some((arg.name@, arg.description@)),
                None => None,
            },
            pending_generators: self.pending_generators,
            debounce_ms: self.debounce_ms,
        }
    }
}

/// A result without an argument and without generators held back.
pub open spec fn plain_result(
    suggestions: Seq<SuggestionView>,
    fuzzy: bool,
    search_term: Seq<char>,
    match_term: Seq<char>,
) -> ResultView {
    ResultView {
        suggestions,
        fuzzy,
        search_term,
        match_term,
        current_arg: None,
        pending_generators: false,
        debounce_ms: None,
    }
}

/// Builds [`plain_result`].
pub fn make_result(
    suggestions: Vec<Suggestion>,
    fuzzy: bool,
    search_term: String,
    match_term: String,
) -> (result: CompleteResult)
    ensures
        result@ == plain_result(rows(suggestions@), fuzzy, search_term@, match_term@),
{
    CompleteResult {
        suggestions,
        fuzzy,
        search_term,
        match_term,
        current_arg: None,
        pending_generators: false,
        debounce_ms: None,
    }
}

/// The command that ranking files a request under: the first word of the text
/// that is completed.
pub open spec fn root_command(buffer: Seq<char>, cursor: Option<u32>) -> Seq<char> {
    let list = words(completion_text(buffer, cursor));
    if list.len() > 0 {
        list[0]
    } else {
        Seq::empty()
    }
}

/// Computes [`root_command`]. Recording an acceptance uses the same word as
/// ranking does, so quoted commands and a caret before the end agree.
pub fn ranking_root_command(buffer: &str, cursor: Option<u32>) -> (command: String)
    ensures
        command@ == root_command(buffer@, cursor),
{
    let text = completion_buffer(buffer, cursor);
    let (tokens, _) = tokenize(text);
    proof {
        assert(texts(tokens@).len() == tokens@.len());
        if tokens@.len() > 0 {
            assert(texts(tokens@)[0] == tokens@[0]@);
        }
    }
    if tokens.len() > 0 {
        tokens[0].clone()
    } else {
        String::new()
    }
}

/// Whether shell history may be read.
pub fn history_loading_enabled(disabled: bool) -> (enabled: bool)
    ensures
        enabled == !disabled,
{
    !disabled
}

/// Whether shell history is merged into the rows.
pub fn should_merge_history(include_history: bool, disabled: bool) -> (merge: bool)
    ensures
        merge == (include_history && !disabled),
{
    include_history && history_loading_enabled(disabled)
}

} // verus!
