//! Merging shell history into a result.
use vstd::hash_set::StringHashSet;
use vstd::prelude::*;

use super::frecency::{firsts, history_rows, Frecency};
use super::order::{completion_prefix, matching_term, matching_term_of, words_before};
use crate::lookup::shell::{current_token_raw, last_raw_word};
use crate::runtime::{rows, CompleteResult, ResultView, Suggestion, SuggestionView};
use crate::text::{chars_of, opt_text, text_range, texts};

verus! {

/// The beginning that history rows continue: the words before the one being
/// typed and a space; absent while the first word is typed.
pub open spec fn typed_beginning(tokens: Seq<Seq<char>>, term: Seq<char>) -> Option<Seq<char>> {
    let before = words_before(tokens, term);
    if before.len() == 0 {
        None
    } else {
        Some(before.push(' '))
    }
}

/// Computes [`typed_beginning`].
pub fn history_prefix(tokens: &[String], query: &str) -> (prefix: Option<String>)
    ensures
        opt_text(prefix) == typed_beginning(texts(tokens@), query@),
{
    let mut before = completion_prefix(tokens, query);
    if before.as_str().is_empty() {
        return None;
    }
    before.push(' ');
    Some(before)
}

/// Whether a raw word begins with quotes.
pub open spec fn is_quoted(raw: Seq<char>) -> bool {
    raw.len() > 0 && (raw[0] == '\'' || raw[0] == '"' || (raw.len() > 1 && raw[0] == '$' && raw[1]
        == '\''))
}

/// The beginning that history rows continue, as it stands in the buffer:
/// quotes and repeated spaces are kept. What the quotes of the word being
/// typed add to its value belongs to the beginning.
pub open spec fn buffer_beginning(
    buffer: Seq<char>,
    gap: bool,
    tokens: Seq<Seq<char>>,
) -> Option<Seq<char>> {
    if tokens.len() == 0 || (tokens.len() == 1 && !gap) {
        None
    } else if gap {
        if buffer.len() > 0 && buffer.last() == ' ' {
            Some(buffer)
        } else {
            Some(buffer.push(' '))
        }
    } else {
        let raw = last_raw_word(buffer);
        let start = buffer.len() - raw.len();
        let marks = if is_quoted(raw) && raw.len() > tokens.last().len() {
            raw.len() - tokens.last().len()
        } else {
            0
        };
        if start + marks == 0 {
            None
        } else {
            Some(buffer.take(start + marks))
        }
    }
}

/// Computes [`buffer_beginning`].
pub fn history_prefix_from_buffer(command_buffer: &str, ends_with_space: bool, tokens: &[String]) -> (
prefix: Option<String>)
    ensures
        opt_text(prefix) == buffer_beginning(command_buffer@, ends_with_space, texts(tokens@)),
{
    if tokens.len() == 0 || (tokens.len() == 1 && !ends_with_space) {
        return None;
    }
    let s = chars_of(command_buffer);
    let n = s.len();
    if ends_with_space {
        let mut prefix = command_buffer.to_owned();
        if n == 0 || s[n - 1] != ' ' {
            prefix.push(' ');
        }
        return Some(prefix);
    }
    let raw_text = current_token_raw(command_buffer);
    let raw = chars_of(&raw_text);
    let inner = chars_of(&tokens[tokens.len() - 1]);
    proof {
        crate::lookup::shell::lemma_word_start(command_buffer@, n as int);
        assert(texts(tokens@).last() == inner@);
    }
    let start: usize = n - raw.len();
    let quoted = raw.len() > 0 && (raw[0] == '\'' || raw[0] == '"' || (raw.len() > 1 && raw[0]
        == '$' && raw[1] == '\''));
    let marks: usize = if quoted && raw.len() > inner.len() {
        raw.len() - inner.len()
    } else {
        0
    };
    let end: usize = start + marks;
    if end == 0 {
        return None;
    }
    proof {
        assert(s@.take(end as int) =~= s@.subrange(0, end as int));
    }
    Some(text_range(&s, 0, end))
}

/// Whether some row has the name as one of its spellings.
pub open spec fn is_spelled(list: Seq<SuggestionView>, name: Seq<char>) -> bool {
    exists|i: int| 0 <= i < list.len() && spells_name(#[trigger] list[i], name)
}

/// Whether the name is a spelling of the row.
pub open spec fn spells_name(row: SuggestionView, name: Seq<char>) -> bool {
    row.alias_names.contains(name) || row.name == name || row.primary_name == Some(name)
}

/// The rows whose names are no spelling of a row already there.
pub open spec fn new_rows(list: Seq<SuggestionView>, history: Seq<SuggestionView>) -> Seq<
    SuggestionView,
>
    decreases history.len(),
{
    if history.len() == 0 {
        Seq::empty()
    } else if is_spelled(list, history.last().name) {
        new_rows(list, history.drop_last())
    } else {
        new_rows(list, history.drop_last()).push(history.last())
    }
}

/// The history rows for a result. While the first word is typed, whole
/// commands that match it; else the rest of commands that begin as typed.
pub open spec fn history_for(
    tokens: Seq<Seq<char>>,
    term: Seq<char>,
    beginning: Option<Seq<char>>,
    history: Seq<Seq<char>>,
    fuzzy: bool,
) -> Seq<SuggestionView> {
    let prefix = if beginning is Some {
        beginning
    } else {
        typed_beginning(tokens, term)
    };
    match prefix {
        Some(prefix) => history_rows(history, prefix, term, fuzzy),
        None => if term.len() == 0 {
            Seq::empty()
        } else {
            history_rows(history, Seq::empty(), term, fuzzy)
        },
    }
}

/// The rows of a result with history merged in.
pub open spec fn merged_rows(
    result: ResultView,
    tokens: Seq<Seq<char>>,
    beginning: Option<Seq<char>>,
    history: Seq<Seq<char>>,
    fuzzy: bool,
) -> Seq<SuggestionView> {
    if tokens.len() == 0 {
        result.suggestions
    } else {
        result.suggestions + new_rows(
            result.suggestions,
            history_for(tokens, matching_term_of(result), beginning, history, fuzzy),
        )
    }
}

/// Collects every spelling of the rows.
fn spellings(list: &Vec<Suggestion>) -> (names: StringHashSet)
    ensures
        forall|name: Seq<char>| #[trigger] names@.contains(name) <==> is_spelled(rows(list@), name),
{
    let mut names = StringHashSet::new();
    let mut i: usize = 0;
    while i < list.len()
        invariant
            i <= list@.len(),
            forall|name: Seq<char>| #[trigger]
                names@.contains(name) <==> is_spelled(rows(list@).take(i as int), name),
        decreases list@.len() - i,
    {
        let row = &list[i];
        let ghost start = names@;
        let mut j: usize = 0;
        while j < row.alias_names.len()
            invariant
                j <= row.alias_names@.len(),
                forall|name: Seq<char>| #[trigger]
                    names@.contains(name) <==> start.contains(name) || texts(
                        row.alias_names@,
                    ).take(j as int).contains(name),
            decreases row.alias_names@.len() - j,
        {
            let ghost some = texts(row.alias_names@).take(j as int);
            let ghost more = texts(row.alias_names@).take(j + 1);
            let _ = names.insert(row.alias_names[j].clone());
            proof {
                assert forall|name: Seq<char>| more.contains(name) <==> some.contains(name) || name
                    == row.alias_names@[j as int]@ by {
                    if some.contains(name) {
                        let k = choose|k: int| 0 <= k < some.len() && some[k] == name;
                        assert(more[k] == name);
                    }
                    if more.contains(name) {
                        let k = choose|k: int| 0 <= k < more.len() && more[k] == name;
                        if k < j {
                            assert(some[k] == name);
                        }
                    }
                    assert(more[j as int] == row.alias_names@[j as int]@);
                }
            }
            j += 1;
        }
        let _ = names.insert(row.name.clone());
        if let Some(primary) = &row.primary_name {
            let _ = names.insert(primary.clone());
        }
        proof {
            let all = texts(row.alias_names@);
            assert(all.take(all.len() as int) =~= all);
            let before = rows(list@).take(i as int);
            let after = rows(list@).take(i + 1);
            assert forall|name: Seq<char>| is_spelled(after, name) <==> is_spelled(before, name)
                || spells_name(row@, name) by {
                if is_spelled(before, name) {
                    let k = choose|k: int| 0 <= k < before.len() && spells_name(#[trigger] before[k], name);
                    assert(after[k] == before[k]);
                }
                if is_spelled(after, name) {
                    let k = choose|k: int| 0 <= k < after.len() && spells_name(#[trigger] after[k], name);
                    if k < i {
                        assert(before[k] == after[k]);
                    }
                }
                assert(after[i as int] == row@);
            }
        }
        i += 1;
    }
    proof {
        assert(rows(list@).take(list@.len() as int) =~= rows(list@));
    }
    names
}

/// Merges history into a result. Rows that are a spelling of a row already
/// there stay out.
pub fn merge_history_with_prefix(
    result: &mut CompleteResult,
    tokens: &[String],
    buffer_prefix: Option<String>,
    frecency: &Frecency,
    fuzzy: bool,
)
    requires
        frecency.valid(),
    ensures
        final(result)@ == (ResultView {
            suggestions: merged_rows(
                old(result)@,
                texts(tokens@),
                opt_text(buffer_prefix),
                firsts(frecency@),
                fuzzy,
            ),
            ..old(result)@
        }),
{
    if tokens.len() == 0 {
        return;
    }
    let term = matching_term(result);
    let prefix = match buffer_prefix {
        Some(prefix) => Some(prefix),
        None => history_prefix(tokens, &term),
    };
    let history = match &prefix {
        Some(prefix) => frecency.history_suffix_suggestions(prefix, &term, fuzzy),
        None => frecency.history_suggestions(&term, fuzzy, false),
    };
    let names = spellings(&result.suggestions);
    let ghost start = result@;
    let ghost list = rows(result.suggestions@);
    let ghost all = rows(history@);
    let mut i: usize = 0;
    proof {
        assert(all.take(0) =~= Seq::<SuggestionView>::empty());
        assert(list + new_rows(list, all.take(0)) =~= list);
    }
    while i < history.len()
        invariant
            i <= history@.len(),
            all == rows(history@),
            forall|name: Seq<char>| #[trigger] names@.contains(name) <==> is_spelled(list, name),
            list == start.suggestions,
            rows(result.suggestions@) == list + new_rows(list, all.take(i as int)),
            result@ == (ResultView { suggestions: rows(result.suggestions@), ..start }),
        decreases history@.len() - i,
    {
        proof {
            assert(all.take(i + 1).drop_last() =~= all.take(i as int));
            assert(all.take(i + 1).last() == history@[i as int]@);
        }
        if !names.contains(&history[i].name) {
            let ghost had = result.suggestions@;
            result.suggestions.push(history[i].clone());
            proof {
                assert(rows(result.suggestions@) =~= rows(had).push(history@[i as int]@));
                assert(list + new_rows(list, all.take(i as int)).push(history@[i as int]@) =~= (
                list + new_rows(list, all.take(i as int))).push(history@[i as int]@));
            }
        }
        i += 1;
    }
    proof {
        assert(all.take(all.len() as int) =~= all);
    }
}

/// Merges history into a result, by the words typed.
pub fn merge_history(result: &mut CompleteResult, tokens: &[String], frecency: &Frecency, fuzzy: bool)
    requires
        frecency.valid(),
    ensures
        final(result)@ == (ResultView {
            suggestions: merged_rows(
                old(result)@,
                texts(tokens@),
                None,
                firsts(frecency@),
                fuzzy,
            ),
            ..old(result)@
        }),
{
    merge_history_with_prefix(result, tokens, None, frecency, fuzzy);
}

/// Merging history keeps the rows that were there, in their order and in
/// front, and adds none under a name that they already spell.
pub proof fn law_merging_only_appends(
    list: Seq<SuggestionView>,
    history: Seq<SuggestionView>,
    i: int,
)
    requires
        0 <= i < new_rows(list, history).len(),
    ensures
        (list + new_rows(list, history)).take(list.len() as int) == list,
        !is_spelled(list, new_rows(list, history)[i].name),
        history.contains(new_rows(list, history)[i]),
    decreases history.len(),
{
    assert((list + new_rows(list, history)).take(list.len() as int) =~= list);
    let rest = history.drop_last();
    let earlier = new_rows(list, rest);
    let out = new_rows(list, history);
    if i < earlier.len() {
        law_merging_only_appends(list, rest, i);
        let k = choose|k: int| 0 <= k < rest.len() && rest[k] == earlier[i];
        assert(history[k] == out[i]);
    } else {
        assert(history[history.len() - 1] == out[i]);
    }
}

} // verus!
