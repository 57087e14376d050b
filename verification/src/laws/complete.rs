//! Laws of a whole completion: from the text before the caret to its rows.
use std::sync::Arc;

use vstd::prelude::*;

use super::active::{law_arguments_are_found_behind_subcommands, takes_single_words};
use super::options::law_dashed_words_are_no_arguments;
use super::rows::{
    has_matching_name, is_plain_meta, law_matching_options_have_rows,
    law_matching_subcommands_have_rows, offers,
};
use super::shell::{
    is_inert, is_inert_text, law_commands_start_at_their_first_word, law_spaces_part_words,
    law_words_are_one_command,
};
use super::walk::{has_dashed_names, is_settled, law_subcommand_names_are_walked, names_subcommand};
use crate::ir::{OptionSpec, Spec};
use crate::lookup::active::{context_of, reading_behind, ActiveView, ContextView};
use crate::lookup::auto_execute::{
    auto_kind, executable_at, executing, has_kind, law_actions_only_come_first, may_execute,
    with_current_action, with_exact_action, with_space_action,
};
use crate::lookup::complete::{
    asking_with, completed, context_result, context_rows, rows_of_options, terms_in, typed_in,
    wants_current, with_actions, CompleteAnswers, Terms, Typed,
};
use crate::lookup::options::{is_dashed, option_named, separator_from, DirectivesView};
use crate::lookup::rows::{is_offered, option_rows, subcommand_rows};
use crate::lookup::shell::{
    completion_text, is_gap, is_plain_word, law_plain_words_read_back, plain, raw_words, scan_at,
    spaced, words,
};
use crate::lookup::walk::{spec_answer, walk_from, walk_start, Walked};
use crate::runtime::{CompleteRequest, SuggestionView};
use crate::settings::Settings;
use crate::text::{holds_ignoring_case_spec, is_space, lowered, texts};

verus! {

/// A word that needs no quoting and means nothing else to the shell.
pub open spec fn is_simple_word(w: Seq<char>) -> bool {
    is_plain_word(w) && is_inert_text(w) && forall|i: int| 0 <= i < w.len() ==> #[trigger] w[i] != '='
}

pub open spec fn are_simple_words(list: Seq<Seq<char>>) -> bool {
    forall|i: int| 0 <= i < list.len() ==> is_simple_word(#[trigger] list[i])
}

proof fn lemma_simple_text(list: Seq<Seq<char>>)
    requires
        list.len() > 0,
        are_simple_words(list),
    ensures
        is_inert_text(spaced(list)),
        scan_at(spaced(list), spaced(list).len() as int) == plain(),
        spaced(list).len() >= list[0].len(),
        spaced(list).take(list[0].len() as int) == list[0],
        spaced(list).len() == list[0].len() || is_space(spaced(list)[list[0].len() as int]),
    decreases list.len(),
{
    let s = spaced(list);
    if list.len() == 1 {
        assert(is_simple_word(list[0]));
        assert(s.take(list[0].len() as int) =~= list[0]);
    } else {
        let rest = list.drop_last();
        assert forall|i: int| 0 <= i < rest.len() implies is_simple_word(#[trigger] rest[i]) by {
            assert(rest[i] == list[i]);
        }
        lemma_simple_text(rest);
        let t = spaced(rest);
        let last = list.last();
        assert(is_simple_word(list[list.len() - 1]));
        assert(s =~= t + seq![' '] + last);
        assert forall|i: int| 0 <= i < s.len() implies is_inert(#[trigger] s[i]) by {
            if i < t.len() {
                assert(s[i] == t[i]);
            } else if i > t.len() {
                assert(s[i] == last[i - t.len() - 1]);
            }
        }
        assert(rest[0] == list[0]);
        let n = list[0].len() as int;
        assert(s.take(n) =~= t.take(n));
        if t.len() > n {
            assert(s[n] == t[n]);
        } else {
            assert(s[n] == ' ');
        }
    }
    law_words_are_one_command(s);
}

/// Simple words with single spaces between them are completed as a whole.
pub proof fn lemma_simple_text_is_whole(list: Seq<Seq<char>>)
    requires
        list.len() > 0,
        are_simple_words(list),
    ensures
        completion_text(spaced(list), None) == spaced(list),
{
    lemma_simple_text(list);
    let s = spaced(list);
    let first = list[0];
    assert(is_simple_word(first));
    let n = first.len() as int;
    assert forall|k: int| 0 <= k < first.len() implies #[trigger] first[k] != '=' && first[k] != '<'
        && first[k] != '>' by {
        assert(is_inert(first[k]));
    }
    assert(s =~= first + s.skip(n));
    law_words_are_one_command(s);
    law_commands_start_at_their_first_word(first, s.skip(n));
    assert(s.skip(0) =~= s);
}

/// Of simple words with single spaces between them everything is completed text:
/// the words, and the last one as the term, or none once a space follows it.
pub proof fn law_simple_words_are_typed(list: Seq<Seq<char>>)
    requires
        list.len() > 0,
        are_simple_words(list),
    ensures
        ({
            let typed = typed_in(completion_text(spaced(list), None));
            &&& typed.tokens == list
            &&& !typed.gap
            &&& typed.term == list.last()
            &&& typed.raw == list.last()
        }),
        ({
            let typed = typed_in(completion_text(spaced(list) + " "@, None));
            &&& typed.tokens == list
            &&& typed.gap
            &&& typed.term.len() == 0
            &&& typed.raw.len() == 0
        }),
{
    reveal_strlit(" ");
    lemma_simple_text(list);
    let s = spaced(list);
    let first = list[0];
    assert(is_simple_word(first));
    let n = first.len() as int;
    assert forall|i: int| 0 <= i < list.len() implies is_plain_word(#[trigger] list[i]) by {
        assert(is_simple_word(list[i]));
    }
    law_plain_words_read_back(list);
    assert forall|k: int| 0 <= k < first.len() implies #[trigger] first[k] != '=' && first[k] != '<'
        && first[k] != '>' by {
        assert(is_inert(first[k]));
    }
    assert(s =~= first + s.skip(n));
    law_words_are_one_command(s);
    law_commands_start_at_their_first_word(first, s.skip(n));
    assert(s.skip(0) =~= s);
    assert(completion_text(s, None) == s);
    let t = s + " "@;
    assert(t =~= s + seq![' '] + Seq::<char>::empty());
    assert forall|i: int| 0 <= i < t.len() implies is_inert(#[trigger] t[i]) by {
        if i < s.len() {
            assert(t[i] == s[i]);
        }
    }
    law_words_are_one_command(t);
    assert(t =~= first + t.skip(n));
    if s.len() > n {
        assert(t.skip(n)[0] == s[n]);
    } else {
        assert(t.skip(n)[0] == ' ');
    }
    law_commands_start_at_their_first_word(first, t.skip(n));
    assert(t.skip(0) =~= t);
    assert(completion_text(t, None) == t);
    law_spaces_part_words(s, ' ', Seq::empty());
    let none = Seq::<char>::empty();
    assert(raw_words(none) =~= Seq::<Seq<char>>::empty());
    assert(words(none) =~= Seq::<Seq<char>>::empty());
    assert(words(t) =~= list);
    let m = s.len() as int;
    assert(t.take(m) =~= s);
    super::shell::lemma_scan_of_prefix(t, m, m);
    assert(is_gap(t, m));
}

/// Some row of the list offers an entry with these names.
pub open spec fn list_offers(
    list: Seq<SuggestionView>,
    names: Seq<String>,
    description: Seq<char>,
    query: Seq<char>,
    fuzzy: bool,
) -> bool {
    exists|p: int|
        0 <= p < list.len() && offers(#[trigger] list[p], names, description, query, fuzzy)
}

/// Where no argument has the place for itself, the subcommands that match are
/// offered.
pub proof fn law_subcommands_are_offered(
    names: Seq<Seq<char>>,
    context: ContextView,
    typed: Typed,
    terms: Terms,
    settings: Settings,
    generated: Seq<SuggestionView>,
    k: int,
)
    requires
        context.active is None || !context.active->Some_0.exclusive,
        terms.chain is None,
        0 <= k < context.spec.subcommands@.len(),
        is_plain_meta(context.spec.subcommands@[k].meta),
        !context.spec.subcommands@[k].meta.hidden || holds_ignoring_case_spec(
            context.spec.subcommands@[k].names@,
            terms.query,
        ),
        has_matching_name(context.spec.subcommands@[k].names@, terms.query, terms.fuzzy),
    ensures
        list_offers(
            context_rows(names, context, typed, terms, settings, generated),
            context.spec.subcommands@[k].names@,
            context.spec.subcommands@[k].description@,
            terms.query,
            terms.fuzzy,
        ),
{
    let list = context.spec.subcommands@;
    let asking = asking_with(terms, settings);
    law_matching_subcommands_have_rows(list, asking, k);
    let own = subcommand_rows(list, asking);
    let p = choose|p: int|
        {
            &&& 0 <= p < own.len()
            &&& offers(
                #[trigger] own[p],
                list[k].names@,
                list[k].description@,
                asking.query,
                asking.fuzzy,
            )
            &&& own[p].kind == "subcommand"@
        };
    let all = context_rows(names, context, typed, terms, settings, generated);
    assert(all[p] == own[p]);
}

/// Where options are allowed and the query is empty or begins with a dash, the
/// options that match and may still be passed are offered.
pub proof fn law_options_are_offered(
    names: Seq<Seq<char>>,
    context: ContextView,
    typed: Typed,
    terms: Terms,
    settings: Settings,
    generated: Seq<SuggestionView>,
    k: int,
)
    requires
        context.active is None || !context.active->Some_0.exclusive,
        context.options_allowed,
        terms.chain is None,
        terms.query.len() == 0 || terms.query[0] == '-',
        0 <= k < context.spec.options@.len() + context.persistent.len(),
        ({
            let option = (context.spec.options@ + context.persistent)[k];
            &&& is_offered(*option, context.passed)
            &&& is_plain_meta(option.meta)
            &&& !option.meta.hidden
            &&& has_matching_name(option.names@, terms.query, terms.fuzzy)
        }),
    ensures
        list_offers(
            context_rows(names, context, typed, terms, settings, generated),
            (context.spec.options@ + context.persistent)[k].names@,
            (context.spec.options@ + context.persistent)[k].description@,
            terms.query,
            terms.fuzzy,
        ),
{
    let list = context.spec.options@ + context.persistent;
    let asking = asking_with(terms, settings);
    law_matching_options_have_rows(list, context.passed, context.directives, asking, k);
    let own = option_rows(list, context.passed, context.directives, asking);
    let p = choose|p: int|
        {
            &&& 0 <= p < own.len()
            &&& offers(
                #[trigger] own[p],
                list[k].names@,
                list[k].description@,
                asking.query,
                asking.fuzzy,
            )
            &&& own[p].kind == "option"@
        };
    let all = context_rows(names, context, typed, terms, settings, generated);
    assert(rows_of_options(context, typed, terms, settings) == own);
    let before = all.len() - own.len();
    assert(all[before + p] == own[p]);
}

/// What was generated for the argument is offered as it came, whatever else is.
pub proof fn law_generated_rows_are_offered(
    names: Seq<Seq<char>>,
    context: ContextView,
    typed: Typed,
    terms: Terms,
    settings: Settings,
    generated: Seq<SuggestionView>,
    k: int,
)
    requires
        context.active is Some,
        terms.chain is None,
        0 <= k < generated.len(),
    ensures
        context_rows(names, context, typed, terms, settings, generated).contains(generated[k]),
{
    let asking = asking_with(terms, settings);
    let first = if crate::lookup::complete::is_exclusive(context) {
        Seq::empty()
    } else {
        subcommand_rows(context.spec.subcommands@, asking)
    };
    let args = crate::lookup::complete::argument_rows(names, context, terms, generated);
    let at = args.len() - generated.len();
    assert(args[at + k] == generated[k]);
    let all = context_rows(names, context, typed, terms, settings, generated);
    assert(all[first.len() + (at + k)] == generated[k]);
}

proof fn lemma_actions_keep_rows(
    list: Seq<SuggestionView>,
    context: ContextView,
    typed: Typed,
    terms: Terms,
    settings: Settings,
    p: int,
)
    requires
        0 <= p < list.len(),
    ensures
        with_actions(list, context, typed, terms, settings).contains(list[p]),
{
    let a = with_exact_action(
        list,
        terms.query,
        settings.hide_auto_execute,
        settings.only_show_on_tab,
        settings.run_dangerous,
    );
    let always = crate::lookup::complete::wants_current(
        context.active,
        settings.always_suggest_current_token,
    );
    let b = with_current_action(
        a,
        typed.term,
        always,
        settings.hide_auto_execute,
        settings.only_show_on_tab,
        settings.run_dangerous,
    );
    let c = with_actions(list, context, typed, terms, settings);
    law_actions_only_come_first(
        list,
        terms.query,
        always,
        settings.hide_auto_execute,
        settings.only_show_on_tab,
        settings.run_dangerous,
    );
    law_actions_only_come_first(
        a,
        typed.term,
        always,
        settings.hide_auto_execute,
        settings.only_show_on_tab,
        settings.run_dangerous,
    );
    law_actions_only_come_first(
        b,
        typed.term,
        settings.execute_after_space,
        settings.hide_auto_execute,
        settings.only_show_on_tab,
        settings.run_dangerous,
    );
    let i = if a == list { p } else { p + 1 };
    assert(a[i] == list[p]) by {
        if a != list {
            assert(a.skip(1)[p] == a[p + 1]);
        }
    }
    let j = if b == a { i } else { i + 1 };
    assert(b[j] == a[i]) by {
        if b != a {
            assert(b.skip(1)[i] == b[i + 1]);
        }
    }
    let k = if c == b { j } else { j + 1 };
    assert(c[k] == b[j]) by {
        if c != b {
            assert(c.skip(1)[j] == c[j + 1]);
        }
    }
}

/// A command line of simple words that name a chain of subcommands, and the
/// beginning of one more word, or a space, offers every subcommand of the last one
/// that matches what is typed.
pub proof fn law_subcommands_are_completed(
    names: Seq<Seq<char>>,
    request: CompleteRequest,
    settings: Settings,
    answers: CompleteAnswers,
    tokens: Seq<Seq<char>>,
    gap: bool,
    root: Arc<Spec>,
    chain: Seq<Arc<Spec>>,
    last: Arc<Spec>,
    k: int,
)
    requires
        tokens.len() > 0,
        are_simple_words(tokens),
        request.cursor is None,
        request.buffer@ == if gap {
            spaced(tokens) + " "@
        } else {
            spaced(tokens)
        },
        tokens.len() == 1 + chain.len() + if gap {
            0int
        } else {
            1int
        },
        forall|i: int| 0 <= i < tokens.len() ==> (#[trigger] tokens[i])[0] != '-',
        !texts(settings.disabled_commands@).contains(tokens[0]),
        spec_answer(answers.specs.specs@, tokens[0], 0) == Some(Some(root)),
        is_settled(answers.specs, *root),
        forall|i: int| 0 <= i < chain.len() ==> is_settled(answers.specs, *(#[trigger] chain[i])),
        chain.len() > 0 ==> names_subcommand(*root, tokens[1], chain[0]),
        forall|i: int|
            0 < i < chain.len() ==> names_subcommand(
                *chain[i - 1],
                tokens[i + 1],
                #[trigger] chain[i],
            ),
        last == if chain.len() == 0 {
            root
        } else {
            chain.last()
        },
        last.args@.len() == 0,
        last.filter_strategy is None,
        has_dashed_names(root.persistent_options@),
        forall|i: int|
            0 <= i < chain.len() ==> has_dashed_names((#[trigger] chain[i]).persistent_options@),
        has_dashed_names(last.options@),
        0 <= k < last.subcommands@.len(),
        is_plain_meta(last.subcommands@[k].meta),
        !last.subcommands@[k].meta.hidden,
        has_matching_name(
            last.subcommands@[k].names@,
            if gap {
                Seq::empty()
            } else {
                tokens.last()
            },
            request.fuzzy,
        ),
    ensures
        completed(names, request, settings, answers) is Done,
        list_offers(
            completed(names, request, settings, answers)->Done_0.suggestions,
            last.subcommands@[k].names@,
            last.subcommands@[k].description@,
            if gap {
                Seq::empty()
            } else {
                tokens.last()
            },
            request.fuzzy,
        ),
{
    law_simple_words_are_typed(tokens);
    let typed = typed_in(completion_text(request.buffer@, request.cursor));
    assert(typed.tokens == tokens);
    assert(typed.gap == gap);
    assert forall|i: int| 0 <= i < tokens.len() implies !is_dashed(#[trigger] tokens[i]) by {
        assert(tokens[i][0] != '-');
    }
    if gap {
        assert(typed.term =~= Seq::empty());
    }
    law_arguments_are_found_behind_subcommands(
        answers.specs,
        root,
        tokens,
        gap,
        typed.term,
        typed.raw,
        chain,
        last,
        0,
    );
    let context = crate::lookup::active::context_of(
        answers.specs,
        root,
        tokens,
        gap,
        typed.term,
        typed.raw,
    )->Done_0;
    let terms = terms_in(context, typed, request.fuzzy);
    assert(terms.chain is None);
    assert(terms.query == typed.term);
    assert(terms.fuzzy == request.fuzzy);
    let none = Seq::<SuggestionView>::empty();
    law_subcommands_are_offered(names, context, typed, terms, settings, none, k);
    let own = context_rows(names, context, typed, terms, settings, none);
    let sub = last.subcommands@[k];
    let p = choose|p: int|
        0 <= p < own.len() && offers(
            #[trigger] own[p],
            sub.names@,
            sub.description@,
            terms.query,
            terms.fuzzy,
        );
    lemma_actions_keep_rows(own, context, typed, terms, settings, p);
    let out = with_actions(own, context, typed, terms, settings);
    let q = choose|q: int| 0 <= q < out.len() && out[q] == own[p];
    assert(offers(out[q], sub.names@, sub.description@, terms.query, terms.fuzzy));
}

proof fn lemma_executable(
    list: Seq<SuggestionView>,
    query: Seq<char>,
    dangerous: bool,
    i: int,
    k: int,
)
    requires
        0 <= i <= k < list.len(),
        may_execute(list[k], query, dangerous),
    ensures
        executable_at(list, query, dangerous, i) is Some,
        i <= executable_at(list, query, dangerous, i)->Some_0 <= k,
        may_execute(
            list[executable_at(list, query, dangerous, i)->Some_0],
            query,
            dangerous,
        ),
    decreases k - i,
{
    if i < k && !may_execute(list[i], query, dangerous) {
        lemma_executable(list, query, dangerous, i + 1, k);
    }
}

proof fn lemma_not_executable(list: Seq<SuggestionView>, query: Seq<char>, dangerous: bool, i: int)
    requires
        0 <= i,
        forall|k: int| 0 <= k < list.len() ==> !may_execute(#[trigger] list[k], query, dangerous),
    ensures
        executable_at(list, query, dangerous, i) is None,
    decreases list.len() - i,
{
    if i < list.len() {
        lemma_not_executable(list, query, dangerous, i + 1);
    }
}

/// A row whose name is typed out, in any case of ASCII letters, can be executed: a
/// row that presses return comes first. Nothing comes first where no name is typed
/// out, where the user hides such rows, or where every such row needs an argument
/// or is dangerous.
pub proof fn law_typed_out_rows_can_be_executed(
    list: Seq<SuggestionView>,
    query: Seq<char>,
    dangerous: bool,
    k: int,
)
    requires
        query.len() > 0,
    ensures
        0 <= k < list.len() && list[k].kind != auto_kind() && list[k].query_term is None && lowered(
            list[k].name,
        ) == lowered(query) && !list[k].requires_arg && !list[k].is_dangerous
            && list[k].insert_value is None ==> {
            let out = with_exact_action(list, query, false, false, dangerous);
            &&& out.len() == list.len() + 1
            &&& out[0].kind == auto_kind()
            &&& out[0].insert_value == Some("\n"@)
            &&& out.skip(1) == list
        },
        (forall|i: int|
            0 <= i < list.len() ==> (#[trigger] list[i]).requires_arg || (list[i].is_dangerous
                && !dangerous) || (list[i].kind != "folder"@ && list[i].query_term is None && lowered(
                list[i].name,
            ) != lowered(query))) ==> with_exact_action(list, query, false, false, dangerous) == list,
        with_exact_action(list, query, true, false, dangerous) == list,
        with_exact_action(list, query, false, true, dangerous) == list,
{
    if 0 <= k < list.len() && may_execute(list[k], query, dangerous) {
        lemma_executable(list, query, dangerous, 0, k);
        let out = with_exact_action(list, query, false, false, dangerous);
        assert(out.skip(1) =~= list);
    }
    if forall|i: int|
        0 <= i < list.len() ==> (#[trigger] list[i]).requires_arg || (list[i].is_dangerous
            && !dangerous) || (list[i].kind != "folder"@ && list[i].query_term is None && lowered(
            list[i].name,
        ) != lowered(query)) {
        lemma_not_executable(list, query, dangerous, 0);
    }
}

/// Behind a space the setting puts a row that presses return before the others,
/// and only there.
pub proof fn law_space_actions(
    list: Seq<SuggestionView>,
    query: Seq<char>,
    execute_after_space: bool,
)
    requires
        list.len() > 0,
    ensures
        ({
            let out = with_space_action(list, query, execute_after_space, false, false);
            if query.len() == 0 && execute_after_space {
                &&& out.len() == list.len() + 1
                &&& out[0].kind == auto_kind()
                &&& out[0].insert_value == Some("\n"@)
                &&& out[0].is_dangerous
                &&& out.skip(1) == list
            } else {
                out == list
            }
        }),
        with_space_action(list, query, execute_after_space, true, false) == list,
        with_space_action(list, query, execute_after_space, false, true) == list,
{
    let out = with_space_action(list, query, execute_after_space, false, false);
    if query.len() == 0 && execute_after_space {
        assert(out.skip(1) =~= list);
    }
}

/// What is typed can be executed as it stands where the settings, or the argument
/// itself, ask for it and no row does that already: a row with that text comes
/// first. Otherwise the rows stay.
pub proof fn law_current_text_can_be_executed(
    list: Seq<SuggestionView>,
    query: Seq<char>,
    always: bool,
    dangerous: bool,
)
    requires
        list.len() > 0,
        query.len() > 0,
        query != "."@,
        query.last() != '/',
        forall|i: int| 0 <= i < list.len() ==> (#[trigger] list[i]).kind != auto_kind(),
        dangerous || forall|i: int| 0 <= i < list.len() ==> !(#[trigger] list[i]).is_dangerous,
    ensures
        ({
            let out = with_current_action(list, query, always, false, false, dangerous);
            if always {
                &&& out.len() == list.len() + 1
                &&& out[0].name == query
                &&& out[0].kind == auto_kind()
                &&& out[0].insert_value == Some("\n"@)
                &&& out.skip(1) == list
            } else {
                out == list
            }
        }),
        with_current_action(list, query, always, true, false, dangerous) == list,
        with_current_action(list, query, always, false, true, dangerous) == list,
{
    super::text::law_suffixes(query, seq!['/'], Seq::empty());
    if crate::text::finishes_with(query, seq!['/']) {
        assert(query.last() == seq!['/'].last());
    }
    let out = with_current_action(list, query, always, false, false, dangerous);
    assert(!has_kind(list, auto_kind()));
    if always {
        assert(out.skip(1) =~= list);
    }
}

/// The setting that offers what is typed yields to the argument's own.
pub proof fn law_arguments_decide_about_typed_text(active: ActiveView, global: bool)
    ensures
        active.arg.suggest_current_token is None ==> wants_current(Some(active), global) == global,
        active.arg.suggest_current_token matches Some(own) ==> wants_current(Some(active), global)
            == own,
        wants_current(None, global) == global,
{
}

/// An argument's rows are matched against what is typed of it; where a separator
/// parts its values, against what follows the last one.
pub proof fn law_arguments_are_matched_by_their_term(
    context: ContextView,
    typed: Typed,
    user_fuzzy: bool,
    active: ActiveView,
)
    requires
        context.active == Some(active),
    ensures
        terms_in(context, typed, user_fuzzy).search_term == active.search_term,
        active.arg.meta.get_query_term is None ==> terms_in(context, typed, user_fuzzy).query
            == active.query,
        forall|a: Seq<char>, c: char, b: Seq<char>|
            (active.arg.meta.get_query_term matches Some(sep) && sep@ == seq![c])
                && active.search_term == #[trigger] (a + seq![c] + b) && !b.contains(c) ==> terms_in(
                context,
                typed,
                user_fuzzy,
            ).query == b,
{
    assert forall|a: Seq<char>, c: char, b: Seq<char>|
        (active.arg.meta.get_query_term matches Some(sep) && sep@ == seq![c]) && active.search_term
            == #[trigger] (a + seq![c] + b) && !b.contains(c) implies terms_in(
        context,
        typed,
        user_fuzzy,
    ).query == b by {
        assert forall|k: int| 0 <= k < b.len() implies #[trigger] b[k] != c by {
            if b[k] == c {
                assert(b.contains(c));
            }
        }
        super::sources::law_terms_follow_their_separator(a, c, b);
    }
}

/// The argument under the caret is named in the result.
pub proof fn law_results_name_the_argument(
    list: Seq<SuggestionView>,
    context: ContextView,
    typed: Typed,
    terms: Terms,
    settings: Settings,
    pending: bool,
    debounce_ms: Option<i64>,
)
    ensures
        ({
            let result = context_result(list, context, typed, terms, settings, pending, debounce_ms);
            &&& context.active is None ==> result.current_arg is None
            &&& context.active matches Some(active) ==> result.current_arg == Some(
                (active.arg.name@, active.arg.description@),
            )
            &&& result.match_term == terms.query
            &&& result.search_term == terms.search_term
            &&& result.pending_generators == pending
        }),
{
}

proof fn lemma_unnamed_option(list: Seq<Arc<OptionSpec>>, word: Seq<char>, i: int)
    requires
        0 <= i,
        forall|k: int| 0 <= k < list.len() ==> !texts((#[trigger] list[k]).names@).contains(word),
    ensures
        option_named(list, word, i) is None,
    decreases list.len() - i,
{
    if i < list.len() {
        assert(!texts(list[i].names@).contains(word));
        lemma_unnamed_option(list, word, i + 1);
    }
}

proof fn lemma_no_equals(word: Seq<char>, directives: DirectivesView, i: int)
    requires
        0 <= i,
        directives.separators is None,
        forall|k: int| 0 <= k < word.len() ==> #[trigger] word[k] != '=',
    ensures
        separator_from(word, directives, i) is None,
    decreases word.len() - i,
{
    if i < word.len() {
        assert(word[i] != '=');
        lemma_no_equals(word, directives, i + 1);
    }
}

/// A command line of simple words that name a chain of subcommands, and the
/// beginning of a long option, offers every option of the last one that matches what
/// is typed.
pub proof fn law_options_are_completed(
    names: Seq<Seq<char>>,
    request: CompleteRequest,
    settings: Settings,
    answers: CompleteAnswers,
    tokens: Seq<Seq<char>>,
    root: Arc<Spec>,
    chain: Seq<Arc<Spec>>,
    last: Arc<Spec>,
    k: int,
)
    requires
        tokens.len() == chain.len() + 2,
        are_simple_words(tokens),
        request.cursor is None,
        request.buffer@ == spaced(tokens),
        forall|i: int| 0 <= i < tokens.len() - 1 ==> (#[trigger] tokens[i])[0] != '-',
        tokens.last().len() >= 2,
        tokens.last()[0] == '-',
        tokens.last()[1] == '-',
        !texts(settings.disabled_commands@).contains(tokens[0]),
        spec_answer(answers.specs.specs@, tokens[0], 0) == Some(Some(root)),
        is_settled(answers.specs, *root),
        forall|i: int| 0 <= i < chain.len() ==> is_settled(answers.specs, *(#[trigger] chain[i])),
        chain.len() > 0 ==> names_subcommand(*root, tokens[1], chain[0]),
        forall|i: int|
            0 < i < chain.len() ==> names_subcommand(
                *chain[i - 1],
                tokens[i + 1],
                #[trigger] chain[i],
            ),
        last == if chain.len() == 0 {
            root
        } else {
            chain.last()
        },
        root.parser_directives is None,
        root.persistent_options@.len() == 0,
        forall|i: int| 0 <= i < chain.len() ==> (#[trigger] chain[i]).parser_directives is None,
        forall|i: int| 0 <= i < chain.len() ==> (#[trigger] chain[i]).persistent_options@.len() == 0,
        takes_single_words(last.args@),
        last.filter_strategy is None,
        forall|i: int|
            0 <= i < last.options@.len() ==> !texts((#[trigger] last.options@[i]).names@).contains(
                tokens.last(),
            ),
        0 <= k < last.options@.len(),
        is_plain_meta(last.options@[k].meta),
        !last.options@[k].meta.hidden,
        last.options@[k].is_repeatable is None,
        has_matching_name(last.options@[k].names@, tokens.last(), request.fuzzy),
    ensures
        completed(names, request, settings, answers) is Done,
        list_offers(
            completed(names, request, settings, answers)->Done_0.suggestions,
            last.options@[k].names@,
            last.options@[k].description@,
            tokens.last(),
            request.fuzzy,
        ),
{
    reveal_strlit("--");
    law_simple_words_are_typed(tokens);
    let typed = typed_in(completion_text(request.buffer@, request.cursor));
    let limit = tokens.len() - 1;
    let term = tokens.last();
    let w = walk_start(answers.specs, root)->Done_0;
    assert forall|i: int| 0 <= i < chain.len() implies !is_dashed(#[trigger] tokens[w.index + i]) by {
        assert(tokens[i + 1][0] != '-');
    }
    assert forall|i: int| 0 < i < chain.len() implies names_subcommand(
        *chain[i - 1],
        #[trigger] tokens[w.index + i],
        chain[i],
    ) by {
        assert(chain[i] == chain[i]);
    }
    assert(w.persistent.len() == 0);
    let end = law_subcommand_names_are_walked(answers.specs, w, tokens, limit, chain);
    assert(end.current == last);
    assert(end.index == limit);
    assert(walk_from(answers.specs, end, tokens, limit) == Walked::Done(end));
    let reading = reading_behind(end, tokens, typed.term, typed.raw);
    assert(end.persistent =~= Seq::empty());
    assert(reading.options =~= last.options@);
    lemma_no_equals_in(tokens);
    lemma_no_equals(term, end.directives, 0);
    lemma_unnamed_option(last.options@, term, 0);
    assert forall|i: int| 0 <= i < end.path_end && i < tokens.len() implies #[trigger] tokens[i]
        != "--"@ by {
        assert(tokens[i][0] != '-');
    }
    law_dashed_words_are_no_arguments(reading, end.path_end);
    let context = context_of(answers.specs, root, tokens, false, typed.term, typed.raw)->Done_0;
    assert(context.active is None);
    assert(context.passed.len() == 0);
    let args = last.args@;
    if args.len() > 0 {
        assert(!args[0].is_variadic);
    }
    assert(context.options_allowed);
    let terms = terms_in(context, typed, request.fuzzy);
    assert(terms.chain is None);
    assert(terms.query == term);
    let all = context.spec.options@ + context.persistent;
    assert(all =~= last.options@);
    let option = last.options@[k];
    assert(context.passed =~= Seq::empty());
    assert(is_offered_now(option, context.passed));
    let none = Seq::<SuggestionView>::empty();
    law_options_are_offered(names, context, typed, terms, settings, none, k);
    let own = context_rows(names, context, typed, terms, settings, none);
    let p = choose|p: int|
        0 <= p < own.len() && offers(
            #[trigger] own[p],
            option.names@,
            option.description@,
            terms.query,
            terms.fuzzy,
        );
    lemma_actions_keep_rows(own, context, typed, terms, settings, p);
    let out = with_actions(own, context, typed, terms, settings);
    let q = choose|q: int| 0 <= q < out.len() && out[q] == own[p];
    assert(offers(out[q], option.names@, option.description@, terms.query, terms.fuzzy));
}

spec fn is_offered_now(option: Arc<OptionSpec>, passed: Seq<Arc<OptionSpec>>) -> bool {
    is_offered(*option, passed)
}

proof fn lemma_no_equals_in(tokens: Seq<Seq<char>>)
    requires
        tokens.len() > 0,
        are_simple_words(tokens),
    ensures
        forall|k: int| 0 <= k < tokens.last().len() ==> #[trigger] tokens.last()[k] != '=',
{
    assert(is_simple_word(tokens[tokens.len() - 1]));
}

/// The row that executes a row shows its name, without the slash where it is a
/// folder, presses return, and remembers what kind of row it was.
pub proof fn law_executing_rows(row: SuggestionView, name: Seq<char>)
    ensures
        executing(row).kind == auto_kind(),
        executing(row).insert_value == Some("\n"@),
        executing(row).query_term == row.query_term,
        row.kind != "folder"@ ==> executing(row).name == row.name && executing(row).description
            == row.description,
        row.kind == "folder"@ && row.name == name + "/"@ ==> executing(row).name == name,
        row.original_type is None ==> executing(row).original_type == Some(row.kind),
{
    reveal_strlit("/");
    if row.name == name + "/"@ {
        super::text::law_suffixes(row.name, seq!['/'], name);
        assert(row.name =~= name + seq!['/']);
        assert(row.name.drop_last() =~= name);
    }
}

/// A path that is typed up to its last slash, where folders are listed, can be
/// entered: a row that presses return comes first.
pub proof fn law_typed_folders_can_be_entered(
    list: Seq<SuggestionView>,
    path: Seq<char>,
    always: bool,
    k: int,
)
    requires
        0 <= k < list.len(),
        list[k].kind == "folder"@,
        forall|i: int| 0 <= i < list.len() ==> (#[trigger] list[i]).kind != auto_kind(),
    ensures
        ({
            let out = with_current_action(list, path + "/"@, always, false, false, true);
            &&& out.len() == list.len() + 1
            &&& out[0].kind == auto_kind()
            &&& out[0].insert_value == Some("\n"@)
            &&& out[0].original_type == Some("folder"@)
            &&& out.skip(1) == list
        }),
{
    reveal_strlit("/");
    let query = path + "/"@;
    super::text::law_suffixes(query, seq!['/'], path);
    assert(query =~= path + seq!['/']);
    assert(has_kind(list, "folder"@));
    assert(!has_kind(list, auto_kind()));
    let out = with_current_action(list, query, always, false, false, true);
    assert(out.skip(1) =~= list);
}

/// Where first words are not to be completed, a first word gives no rows.
pub proof fn law_first_words_may_be_left_alone(
    names: Seq<Seq<char>>,
    request: CompleteRequest,
    settings: Settings,
    answers: CompleteAnswers,
    word: Seq<char>,
)
    requires
        is_simple_word(word),
        request.buffer@ == word,
        request.cursor is None,
        !request.suggest_first_token,
    ensures
        completed(names, request, settings, answers) is Done,
        completed(names, request, settings, answers)->Done_0.suggestions.len() == 0,
{
    let tokens = seq![word];
    assert(spaced(tokens) == word);
    law_simple_words_are_typed(tokens);
}

/// An unknown command has no rows of its own.
pub proof fn law_unknown_commands_have_no_rows(
    names: Seq<Seq<char>>,
    request: CompleteRequest,
    settings: Settings,
    answers: CompleteAnswers,
    tokens: Seq<Seq<char>>,
)
    requires
        tokens.len() >= 2,
        are_simple_words(tokens),
        request.buffer@ == spaced(tokens),
        request.cursor is None,
        spec_answer(answers.specs.specs@, tokens[0], 0) == Some(None::<Arc<Spec>>),
    ensures
        completed(names, request, settings, answers) is Done,
        completed(names, request, settings, answers)->Done_0.suggestions.len() == 0,
        completed(names, request, settings, answers)->Done_0.match_term == tokens.last(),
{
    law_simple_words_are_typed(tokens);
}

} // verus!
