//! Laws of the engine as a whole: what is completed is ranked, and past commands
//! are found by what was typed.
use vstd::prelude::*;

use super::complete::{are_simple_words, is_simple_word, law_simple_words_are_typed};
use super::rank::{law_matching_history_is_offered, lemma_every_row_has_a_place};
use super::shell::is_inert;
use crate::engine::{answered, history_only};
use crate::lookup::complete::{completed, fuzzy_at, typed_in, CompleteAnswers};
use crate::lookup::shell::{
    completion_text, is_plain_word, last_raw_word, law_plain_words_read_back, spaced,
};
use crate::lookup::walk::{SpecAnswers, Walked};
use crate::query::is_match;
use crate::rank::frecency::HISTORY_LIMIT;
use crate::rank::history::{buffer_beginning, is_quoted};
use crate::rank::order::{
    is_duplicate, law_duplicates_are_dropped, law_ranking_is_stable, rank_order, ranked_result,
    ranked_rows, row_keys, Ranking,
};
use crate::runtime::{CompleteRequest, SuggestionView};
use crate::settings::Settings;
use crate::text::{is_space, joined};

verus! {

/// Some row of the list looks like the given one: the same name, text to insert,
/// display name and hint.
pub open spec fn shows_row(list: Seq<SuggestionView>, row: SuggestionView) -> bool {
    exists|q: int|
        0 <= q < list.len() && {
            let other = #[trigger] list[q];
            &&& other.name == row.name
            &&& other.insert_value == row.insert_value
            &&& other.display_name == row.display_name
            &&& other.args_hint == row.args_hint
        }
}

/// Ranking leaves no row out: each is shown afterwards, or one that looks the same.
pub proof fn law_ranking_leaves_nothing_out(list: Seq<SuggestionView>, r: Ranking, i: int)
    requires
        0 <= i < list.len(),
    ensures
        shows_row(ranked_result(list, r), list[i]),
{
    let keys = row_keys(list, r);
    let n = list.len() as int;
    law_ranking_is_stable(keys, n);
    lemma_every_row_has_a_place(keys, n, i);
    let order = rank_order(keys, n);
    let p = choose|p: int| 0 <= p < n && #[trigger] order[p] == i;
    let sorted = ranked_rows(list, r);
    assert(sorted[p] == list[i]);
    let out = ranked_result(list, r);
    if sorted.len() <= 50 {
        law_duplicates_are_dropped(sorted, p);
        let q = choose|q: int| 0 <= q < out.len() && is_duplicate(#[trigger] out[q], sorted[p]);
        assert(out[q].name == list[i].name);
    } else {
        assert(out[p].name == list[i].name);
    }
}

/// Every row that a completion has is among the rows of the engine's answer,
/// whatever history adds and however they are ranked.
pub proof fn law_answers_show_what_was_completed(
    names: Seq<Seq<char>>,
    request: CompleteRequest,
    settings: Settings,
    answers: CompleteAnswers,
    history: Seq<Seq<char>>,
    acceptances: Seq<(Seq<char>, Seq<char>, u64)>,
    i: int,
)
    requires
        !request.history_only,
        completed(names, request, settings, answers) is Done,
        0 <= i < completed(names, request, settings, answers)->Done_0.suggestions.len(),
    ensures
        answered(names, request, settings, answers, history, acceptances) is Done,
        shows_row(
            answered(names, request, settings, answers, history, acceptances)->Done_0.suggestions,
            completed(names, request, settings, answers)->Done_0.suggestions[i],
        ),
{
    let result = completed(names, request, settings, answers)->Done_0;
    let text = completion_text(request.buffer@, request.cursor);
    let typed = typed_in(text);
    let merged = if request.include_history && !settings.disable_history {
        crate::engine::with_history(result, text, typed, history)
    } else {
        result
    };
    assert(merged.suggestions[i] == result.suggestions[i]);
    let known: Seq<Seq<char>> = if settings.disable_history { Seq::empty() } else { history };
    law_ranking_leaves_nothing_out(
        merged.suggestions,
        crate::rank::order::ranking_for(
            merged,
            typed.tokens,
            known,
            acceptances,
            crate::runtime::root_command(request.buffer@, request.cursor),
            settings.alphabetical,
        ),
        i,
    );
}

/// What stands before the word being typed, and the word, are the line; behind a
/// space everything stands before the next word.
pub proof fn law_the_beginning_of_the_line(tokens: Seq<Seq<char>>)
    requires
        tokens.len() >= 2,
        are_simple_words(tokens),
    ensures
        buffer_beginning(spaced(tokens), false, tokens) is Some,
        buffer_beginning(spaced(tokens), false, tokens)->Some_0 + tokens.last() == spaced(tokens),
        buffer_beginning(spaced(tokens) + " "@, true, tokens) == Some(spaced(tokens) + " "@),
{
    reveal_strlit(" ");
    let s = spaced(tokens);
    assert forall|i: int| 0 <= i < tokens.len() implies is_plain_word(#[trigger] tokens[i]) by {
        assert(is_simple_word(tokens[i]));
    }
    law_plain_words_read_back(tokens);
    let raw = last_raw_word(s);
    let last = tokens.last();
    assert(raw == last);
    assert(is_simple_word(tokens[tokens.len() - 1]));
    assert(is_inert(last[0]));
    assert(!is_quoted(raw));
    let rest = tokens.drop_last();
    assert(s == joined(rest, seq![' ']) + seq![' '] + last);
    let start = s.len() - last.len();
    assert(start > 0);
    assert(s.take(start) + last =~= s);
    assert((s + " "@).last() == ' ');
}

/// Asked for past commands alone, the engine shows every one that begins with what
/// stands before the word being typed and goes on with a text that matches it.
pub proof fn law_past_commands_are_found(
    answers: SpecAnswers,
    request: CompleteRequest,
    history: Seq<Seq<char>>,
    tokens: Seq<Seq<char>>,
    head: Seq<char>,
    text: Seq<char>,
    fuzzy: bool,
    k: int,
)
    requires
        tokens.len() >= 2,
        are_simple_words(tokens),
        request.buffer@ == spaced(tokens),
        request.cursor is None,
        head + tokens.last() == spaced(tokens),
        fuzzy_at(answers, request.fuzzy, typed_in(spaced(tokens))) == Walked::Done(fuzzy),
        0 <= k < history.len() <= HISTORY_LIMIT,
        history[k] == head + text,
        text.len() > 0,
        !is_space(text[0]),
        !is_space(text.last()),
        is_match(text, tokens.last(), fuzzy),
    ensures
        history_only(answers, request, false, history) is Done,
        ({
            let out = history_only(answers, request, false, history)->Done_0.suggestions;
            exists|p: int|
                0 <= p < out.len() && (#[trigger] out[p]).name == text && out[p].insert_value == Some(
                    text,
                )
        }),
{
    law_simple_words_are_typed(tokens);
    law_the_beginning_of_the_line(tokens);
    let s = spaced(tokens);
    assert(completion_text(s, None) == s) by {
        super::complete::lemma_simple_text_is_whole(tokens);
    }
    let beginning = buffer_beginning(s, false, tokens)->Some_0;
    let last = tokens.last();
    assert((beginning + last).len() == beginning.len() + last.len());
    assert((head + last).len() == head.len() + last.len());
    assert(beginning =~= (beginning + last).take(head.len() as int));
    assert(head =~= (head + last).take(head.len() as int));
    let none = Seq::<char>::empty();
    assert(history[k] =~= head + text + none);
    super::rank::lemma_few_offered(history, head, last, fuzzy, 0);
    law_matching_history_is_offered(history, head, text, none, last, fuzzy, k);
    let rows = crate::rank::frecency::history_rows(history, head, last, fuzzy);
    let out = history_only(answers, request, false, history)->Done_0.suggestions;
    assert(out == rows);
    let p = choose|p: int| 0 <= p < rows.len() && (#[trigger] rows[p]).name == text;
    assert(out[p].insert_value == Some(text));
}

/// Behind a space, past commands are found that begin with the whole line.
pub proof fn law_past_commands_are_found_behind_a_space(
    answers: SpecAnswers,
    request: CompleteRequest,
    history: Seq<Seq<char>>,
    tokens: Seq<Seq<char>>,
    text: Seq<char>,
    fuzzy: bool,
    k: int,
)
    requires
        tokens.len() >= 2,
        are_simple_words(tokens),
        request.buffer@ == spaced(tokens) + " "@,
        request.cursor is None,
        completion_text(request.buffer@, None) == request.buffer@,
        fuzzy_at(answers, request.fuzzy, typed_in(request.buffer@)) == Walked::Done(fuzzy),
        0 <= k < history.len() <= HISTORY_LIMIT,
        history[k] == spaced(tokens) + " "@ + text,
        text.len() > 0,
        !is_space(text[0]),
        !is_space(text.last()),
    ensures
        history_only(answers, request, false, history) is Done,
        ({
            let out = history_only(answers, request, false, history)->Done_0.suggestions;
            exists|p: int|
                0 <= p < out.len() && (#[trigger] out[p]).name == text && out[p].insert_value == Some(
                    text,
                )
        }),
{
    law_simple_words_are_typed(tokens);
    law_the_beginning_of_the_line(tokens);
    let head = request.buffer@;
    let none = Seq::<char>::empty();
    let typed = typed_in(head);
    assert(typed.term =~= none);
    assert(history[k] =~= head + text + none);
    super::rank::lemma_few_offered(history, head, none, fuzzy, 0);
    law_matching_history_is_offered(history, head, text, none, none, fuzzy, k);
    let rows = crate::rank::frecency::history_rows(history, head, none, fuzzy);
    let out = history_only(answers, request, false, history)->Done_0.suggestions;
    assert(out == rows);
    let p = choose|p: int| 0 <= p < rows.len() && (#[trigger] rows[p]).name == text;
    assert(out[p].insert_value == Some(text));
}

} // verus!
