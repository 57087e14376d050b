//! Laws of generated rows: suggestions that a spec lists, rows of programs, and
//! when generators run again.
use std::sync::Arc;

use vstd::prelude::*;

use super::shape::{
    law_matching_keeps_what_matches, law_matching_lines_give_rows, lemma_push_contains, line_says,
};
use crate::generate::ask::{builtin_ask, builtin_rows, AskView, Reply};
use crate::generate::run::{
    after_turns, are_effective, arg_identity, arg_term, first_progress, generator_term,
    has_arg_term_rule, has_term_rule, is_covered, rows_of_arg, seed_hooks, term_hooks, uncovered,
    Progress, SessionView,
};
use crate::generate::seeds::{
    endangered, first_match, holds_directory, matching_rows, seed_row, seed_rows, shown_rows,
    stamped_rows, without_duplicates, SeedQuery,
};
use crate::generate::shape::{
    branch_names, described_rows, line_rows, matching, matching_or_all, output_parts,
};
use crate::generate::source::{
    builtin_part, generated, generator_timeout, hosted_part, path_filter, plain_script_part,
    template_part, GenerateInput,
};
use crate::generate::trigger::{rule_texts, text_at, triggers};
use crate::ir::{ArgSpec, Builtin, GeneratorSpec, GeneratorTrigger, SuggestionSeed, Template};
use crate::query::{is_match, units};
use crate::runtime::SuggestionView;
use crate::sorted::sorted_set;
use crate::text::{
    begins_with, holds_ignoring_case_spec, lines_of, lowered, opt_text, rfind_spec, texts, trimmed,
};

verus! {

proof fn lemma_first_match(names: Seq<Seq<char>>, query: Seq<char>, fuzzy: bool, i: int, k: int)
    requires
        0 <= i <= k < names.len(),
        is_match(names[k], query, fuzzy),
    ensures
        first_match(names, query, fuzzy, i) is Some,
        names.contains(first_match(names, query, fuzzy, i)->Some_0),
        is_match(first_match(names, query, fuzzy, i)->Some_0, query, fuzzy),
    decreases k - i,
{
    if is_match(names[i], query, fuzzy) {
        assert(names.contains(names[i]));
    } else {
        lemma_first_match(names, query, fuzzy, i + 1, k);
    }
}

/// A suggestion that is compared with the query as it was typed, and always shown.
pub open spec fn is_plain_seed(seed: SuggestionSeed) -> bool {
    &&& seed.meta.get_query_term is None
    &&& seed.meta.js_get_query_term is None
    &&& seed.meta.suggestion_type is None
    &&& !seed.meta.hidden
}

/// Some row of the list offers the suggestion under a name that matches.
pub open spec fn has_seed_row(
    list: Seq<SuggestionView>,
    seed: SuggestionSeed,
    q: SeedQuery,
) -> bool {
    exists|p: int|
        {
            &&& 0 <= p < list.len()
            &&& (#[trigger] list[p]).alias_names == texts(seed.names@)
            &&& texts(seed.names@).contains(list[p].name)
            &&& is_match(list[p].name, q.query, q.fuzzy)
            &&& list[p].description == seed.description@
            &&& list[p].insert_value == opt_text(seed.meta.insert_value)
        }
}

/// Every suggestion that a spec lists with a name that matches the query has a row.
pub proof fn law_listed_suggestions_have_rows(
    seeds: Seq<SuggestionSeed>,
    dangerous: bool,
    q: SeedQuery,
    k: int,
    n: int,
)
    requires
        0 <= k < seeds.len(),
        is_plain_seed(seeds[k]),
        0 <= n < seeds[k].names@.len(),
        is_match(seeds[k].names@[n]@, q.query, q.fuzzy),
    ensures
        has_seed_row(seed_rows(seeds, dangerous, q), seeds[k], q),
    decreases seeds.len(),
{
    let rest = seeds.drop_last();
    let earlier = seed_rows(rest, dangerous, q);
    let out = seed_rows(seeds, dangerous, q);
    if k < rest.len() {
        assert(rest[k] == seeds[k]);
        law_listed_suggestions_have_rows(rest, dangerous, q, k, n);
        let seed = seeds[k];
        let p = choose|p: int|
            {
                &&& 0 <= p < earlier.len()
                &&& (#[trigger] earlier[p]).alias_names == texts(seed.names@)
                &&& texts(seed.names@).contains(earlier[p].name)
                &&& is_match(earlier[p].name, q.query, q.fuzzy)
                &&& earlier[p].description == seed.description@
                &&& earlier[p].insert_value == opt_text(seed.meta.insert_value)
            };
        assert(out[p] == earlier[p]);
    } else {
        reveal_strlit("arg");
        reveal_strlit("shortcut");
        assert("arg"@.len() != "shortcut"@.len());
        let names = texts(seeds[k].names@);
        assert(names[n] == seeds[k].names@[n]@);
        lemma_first_match(names, q.query, q.fuzzy, 0, n);
        assert(seed_row(seeds[k], dangerous, q) is Some);
        assert(out[earlier.len() as int] == seed_row(seeds[k], dangerous, q)->Some_0);
    }
}

/// A hidden suggestion has no row unless one of its names is typed out.
pub proof fn law_hidden_suggestions_need_their_name(
    seeds: Seq<SuggestionSeed>,
    dangerous: bool,
    q: SeedQuery,
)
    requires
        forall|k: int|
            0 <= k < seeds.len() ==> (#[trigger] seeds[k]).meta.hidden
                && seeds[k].meta.get_query_term is None && seeds[k].meta.js_get_query_term is None
                && seeds[k].meta.suggestion_type is None && !holds_ignoring_case_spec(
                seeds[k].names@,
                q.query,
            ),
    ensures
        seed_rows(seeds, dangerous, q).len() == 0,
    decreases seeds.len(),
{
    if seeds.len() > 0 {
        let rest = seeds.drop_last();
        assert forall|k: int| 0 <= k < rest.len() implies (#[trigger] rest[k]).meta.hidden
            && rest[k].meta.get_query_term is None && rest[k].meta.js_get_query_term is None
            && rest[k].meta.suggestion_type is None && !holds_ignoring_case_spec(
            rest[k].names@,
            q.query,
        ) by {
            assert(rest[k] == seeds[k]);
        }
        law_hidden_suggestions_need_their_name(rest, dangerous, q);
        reveal_strlit("arg");
        reveal_strlit("shortcut");
        reveal_strlit("folder");
        assert("arg"@.len() != "shortcut"@.len());
        assert("arg"@.len() != "folder"@.len());
        let last = seeds[seeds.len() - 1];
        assert(last.meta.hidden);
    }
}

/// The rows that are shown are those whose name matches; a hidden one only where
/// its name is typed out, in any case of ASCII letters.
pub proof fn law_shown_rows_match(list: Seq<SuggestionView>, query: Seq<char>, fuzzy: bool)
    ensures
        forall|row: SuggestionView| #[trigger]
            shown_rows(list, query, fuzzy).contains(row) <==> list.contains(row) && is_match(
                row.name,
                query,
                fuzzy,
            ) && (row.hidden ==> lowered(row.name) == lowered(query)),
        forall|row: SuggestionView| #[trigger]
            matching_rows(list, query, fuzzy).contains(row) <==> list.contains(row) && is_match(
                row.name,
                query,
                fuzzy,
            ) && (row.hidden ==> lowered(row.name) == lowered(query)),
    decreases list.len(),
{
    if list.len() > 0 {
        let rest = list.drop_last();
        law_shown_rows_match(rest, query, fuzzy);
        let last = list.last();
        assert(list =~= rest.push(last));
        assert forall|row: SuggestionView| #[trigger]
            shown_rows(list, query, fuzzy).contains(row) <==> list.contains(row) && is_match(
                row.name,
                query,
                fuzzy,
            ) && (row.hidden ==> lowered(row.name) == lowered(query)) by {
            lemma_push_contains(rest, last, row);
            lemma_push_contains(shown_rows(rest, query, fuzzy), last, row);
            assert(shown_rows(rest, query, fuzzy).contains(row) <==> rest.contains(row)
                && is_match(row.name, query, fuzzy) && (row.hidden ==> lowered(row.name) == lowered(
                query,
            )));
        }
        assert forall|row: SuggestionView| #[trigger]
            matching_rows(list, query, fuzzy).contains(row) <==> list.contains(row) && is_match(
                row.name,
                query,
                fuzzy,
            ) && (row.hidden ==> lowered(row.name) == lowered(query)) by {
            lemma_push_contains(rest, last, row);
            lemma_push_contains(matching_rows(rest, query, fuzzy), last, row);
            assert(matching_rows(rest, query, fuzzy).contains(row) <==> rest.contains(row)
                && is_match(row.name, query, fuzzy) && (row.hidden ==> lowered(row.name) == lowered(
                query,
            )));
        }
    }
}

/// Where a rule cuts the query term out of what is typed, rows are matched against
/// that term, but not paths that repeat the directory typed before it; without a
/// rule rows stay as they are.
pub proof fn law_rows_are_matched_against_the_term(
    list: Seq<SuggestionView>,
    query_term: Seq<char>,
    search_term: Seq<char>,
    has_rule: bool,
    i: int,
)
    requires
        0 <= i < list.len(),
    ensures
        stamped_rows(list, query_term, search_term, has_rule).len() == list.len(),
        stamped_rows(list, query_term, search_term, has_rule)[i] == (SuggestionView {
            query_term: stamped_rows(list, query_term, search_term, has_rule)[i].query_term,
            ..list[i]
        }),
        !has_rule ==> stamped_rows(list, query_term, search_term, has_rule)[i] == list[i],
        list[i].query_term is Some ==> stamped_rows(list, query_term, search_term, has_rule)[i]
            == list[i],
        has_rule && list[i].query_term is None && list[i].kind != "file"@ && list[i].kind
            != "folder"@ ==> stamped_rows(list, query_term, search_term, has_rule)[i].query_term
            == Some(query_term),
        forall|directory: Seq<char>|
            has_rule && list[i].kind == "file"@ && directory.len() > 0 && search_term
                == #[trigger] (directory + query_term) && begins_with(list[i].name, directory)
                ==> stamped_rows(list, query_term, search_term, has_rule)[i] == list[i],
{
    assert forall|directory: Seq<char>|
        has_rule && list[i].kind == "file"@ && directory.len() > 0 && search_term == #[trigger] (
        directory + query_term) && begins_with(list[i].name, directory) implies stamped_rows(
        list,
        query_term,
        search_term,
        has_rule,
    )[i] == list[i] by {
        super::text::law_suffixes(search_term, query_term, directory);
        assert(search_term.take(search_term.len() - query_term.len()) =~= directory);
        assert(holds_directory(list[i].name, list[i].kind, search_term, query_term));
    }
}

/// The rows of a dangerous argument are dangerous; those of another stay.
pub proof fn law_danger_is_passed_on(list: Seq<SuggestionView>, dangerous: bool, i: int)
    requires
        0 <= i < list.len(),
    ensures
        endangered(list, dangerous).len() == list.len(),
        endangered(list, dangerous)[i].name == list[i].name,
        endangered(list, dangerous)[i].is_dangerous == (dangerous || list[i].is_dangerous),
        !dangerous ==> endangered(list, dangerous) == list,
{
}

/// Of rows with the same name, kind and text to insert the first is kept.
pub proof fn law_first_duplicates_are_kept(
    a: Seq<SuggestionView>,
    row: SuggestionView,
    b: Seq<SuggestionView>,
)
    requires
        forall|i: int|
            0 <= i < a.len() ==> (#[trigger] a[i]).name != row.name || a[i].kind != row.kind
                || a[i].insert_value != row.insert_value,
    ensures
        without_duplicates(a + seq![row] + b).contains(row),
        forall|i: int|
            0 <= i < without_duplicates(a + seq![row] + b).len() ==> (a + seq![row] + b).contains(
                #[trigger] without_duplicates(a + seq![row] + b)[i],
            ),
    decreases b.len(),
{
    let list = a + seq![row] + b;
    lemma_kept_inside(list);
    if b.len() == 0 {
        assert(list =~= a.push(row));
        assert(list.drop_last() =~= a);
        let earlier = without_duplicates(a);
        lemma_kept_inside(a);
        assert(!crate::generate::seeds::holds_suggestion(earlier, row)) by {
            if crate::generate::seeds::holds_suggestion(earlier, row) {
                let i = choose|i: int|
                    0 <= i < earlier.len() && crate::generate::seeds::same_suggestion(
                        #[trigger] earlier[i],
                        row,
                    );
                assert(a.contains(earlier[i]));
                let k = choose|k: int| 0 <= k < a.len() && a[k] == earlier[i];
                assert(a[k].name == row.name);
            }
        }
        assert(without_duplicates(list).last() == row);
    } else {
        law_first_duplicates_are_kept(a, row, b.drop_last());
        assert(list.drop_last() =~= a + seq![row] + b.drop_last());
        let earlier = without_duplicates(list.drop_last());
        let i = choose|i: int| 0 <= i < earlier.len() && earlier[i] == row;
        assert(without_duplicates(list)[i] == row);
    }
}

proof fn lemma_kept_inside(list: Seq<SuggestionView>)
    ensures
        forall|i: int|
            0 <= i < without_duplicates(list).len() ==> list.contains(
                #[trigger] without_duplicates(list)[i],
            ),
    decreases list.len(),
{
    if list.len() > 0 {
        let rest = list.drop_last();
        lemma_kept_inside(rest);
        let earlier = without_duplicates(rest);
        let out = without_duplicates(list);
        assert forall|i: int| 0 <= i < out.len() implies list.contains(#[trigger] out[i]) by {
            if i < earlier.len() {
                assert(out[i] == earlier[i]);
                let k = choose|k: int| 0 <= k < rest.len() && rest[k] == earlier[i];
                assert(list[k] == out[i]);
            } else {
                assert(list[list.len() - 1] == out[i]);
            }
        }
    }
}

/// A generator runs whenever its argument is new.
pub proof fn law_new_arguments_trigger(
    trigger: Option<GeneratorTrigger>,
    debounce: bool,
    search_term: Seq<char>,
    previous: Seq<char>,
    lists_paths: bool,
    answer: Option<bool>,
)
    ensures
        triggers(trigger, debounce, true, search_term, previous, lists_paths, answer),
{
}

/// A generator that waits for a text runs again once the text is typed, and not
/// while it is missing.
pub proof fn law_typed_texts_trigger(
    trigger: GeneratorTrigger,
    needle: Seq<char>,
    search_term: Seq<char>,
    previous: Seq<char>,
    debounce: bool,
    lists_paths: bool,
    answer: Option<bool>,
)
    requires
        trigger.on@ == "string"@,
        trigger.string matches Some(crate::json::Json::Text(text)) && text@ == needle,
        needle.len() > 0,
        rfind_spec(previous, needle) is None,
        units(search_term).len() <= i32::MAX,
    ensures
        triggers(Some(trigger), debounce, false, search_term, previous, lists_paths, answer)
            <==> rfind_spec(search_term, needle) is Some,
{
    reveal_strlit("string");
    reveal_strlit("function");
    assert("string"@.len() != "function"@.len());
    if let Some(i) = rfind_spec(search_term, needle) {
        crate::text::lemma_rfind_bounds(search_term, needle, search_term.len() - needle.len());
        lemma_units_of_prefix(search_term, i);
    }
}

proof fn lemma_units_of_prefix(s: Seq<char>, i: int)
    requires
        0 <= i <= s.len(),
    ensures
        units(s.take(i)).len() <= units(s).len(),
    decreases s.len() - i,
{
    if i < s.len() {
        lemma_units_of_prefix(s, i + 1);
        assert(s.take(i + 1).drop_last() =~= s.take(i));
    } else {
        assert(s.take(i) =~= s);
    }
}

/// A generator that waits for a length runs when what is typed first exceeds it:
/// once it has run, it does not run again while the length stays above.
pub proof fn law_lengths_trigger_once(
    trigger: GeneratorTrigger,
    first: Seq<char>,
    second: Seq<char>,
    third: Seq<char>,
    debounce: bool,
    lists_paths: bool,
    answer: Option<bool>,
)
    requires
        trigger.on@ == "threshold"@,
        triggers(Some(trigger), debounce, false, second, first, lists_paths, answer),
    ensures
        !triggers(Some(trigger), debounce, false, third, second, lists_paths, answer),
        units(first).len() < units(second).len(),
        trigger.length matches Some(n) ==> 0 <= n <= usize::MAX ==> units(second).len() > n
            && units(first).len() <= n,
{
    reveal_strlit("threshold");
    reveal_strlit("string");
    reveal_strlit("function");
    assert("threshold"@.len() != "function"@.len());
    assert("threshold"@.len() != "string"@.len());
}

proof fn lemma_text_at(list: Seq<Seq<char>>, text: Seq<char>, i: int)
    requires
        0 <= i <= list.len() <= i32::MAX,
    ensures
        text_at(list, text, i) == -1i32 <==> forall|k: int|
            i <= k < list.len() ==> #[trigger] list[k] != text,
    decreases list.len() - i,
{
    if i < list.len() {
        lemma_text_at(list, text, i + 1);
        if list[i] != text {
            assert((forall|k: int| i <= k < list.len() ==> #[trigger] list[k] != text) <==> forall|
                k: int,
            | i + 1 <= k < list.len() ==> #[trigger] list[k] != text);
        }
    }
}

/// A generator that waits for certain words runs again when one of them is typed
/// out, and not while none is.
pub proof fn law_typed_words_trigger(
    trigger: GeneratorTrigger,
    search_term: Seq<char>,
    previous: Seq<char>,
    debounce: bool,
    lists_paths: bool,
    answer: Option<bool>,
)
    requires
        trigger.on@ == "match"@,
        rule_texts(trigger.string).len() <= i32::MAX,
        !rule_texts(trigger.string).contains(previous),
    ensures
        triggers(Some(trigger), debounce, false, search_term, previous, lists_paths, answer)
            <==> rule_texts(trigger.string).contains(search_term),
{
    reveal_strlit("match");
    reveal_strlit("threshold");
    reveal_strlit("string");
    reveal_strlit("function");
    assert("match"@.len() != "function"@.len());
    assert("match"@.len() != "string"@.len());
    assert("match"@.len() != "threshold"@.len());
    let list = rule_texts(trigger.string);
    lemma_text_at(list, search_term, 0);
    lemma_text_at(list, previous, 0);
    assert forall|k: int| 0 <= k < list.len() implies #[trigger] list[k] != previous by {
        if list[k] == previous {
            assert(list.contains(previous));
        }
    }
    if list.contains(search_term) {
        let k = choose|k: int| 0 <= k < list.len() && list[k] == search_term;
        assert(list[k] == search_term);
    }
}

/// Without a rule, paths are listed again when what is typed changes, and other
/// generators run again only where they wait for the typing to pause.
pub proof fn law_changes_trigger(
    debounce: bool,
    search_term: Seq<char>,
    previous: Seq<char>,
    answer: Option<bool>,
)
    ensures
        triggers(None, debounce, false, search_term, previous, true, answer) <==> search_term
            != previous,
        triggers(None, debounce, false, search_term, previous, false, answer) <==> debounce,
{
}

/// The rows of commits and stashes are made from the lines of the output: a line
/// with a name that matches has a row with its description.
pub proof fn law_described_builtins_have_rows(
    builtin: Builtin,
    reply: Reply,
    stdout: Seq<char>,
    query: Seq<char>,
    fuzzy: bool,
    k: int,
    name: Seq<char>,
    description: Seq<char>,
)
    requires
        builtin == Builtin::GitCommits || builtin == Builtin::GitStashes,
        reply matches Reply::Output(Some(text)) && text@ == stdout,
        0 <= k < lines_of(stdout).len() <= 50,
        line_says(lines_of(stdout)[k], name, description),
        name.len() > 0,
        is_match(name, query, fuzzy),
    ensures
        exists|i: int|
            {
                &&& 0 <= i < builtin_rows(builtin, reply, query, fuzzy).len()
                &&& (#[trigger] builtin_rows(builtin, reply, query, fuzzy)[i]).name == name
                &&& builtin_rows(builtin, reply, query, fuzzy)[i].description == description
                &&& builtin_rows(builtin, reply, query, fuzzy)[i].kind == if builtin
                    == Builtin::GitCommits {
                    "commit"@
                } else {
                    "stash"@
                }
            },
{
    let kind = if builtin == Builtin::GitCommits { "commit"@ } else { "stash"@ };
    let list = lines_of(stdout);
    law_matching_lines_give_rows(list, query, fuzzy, kind, k, name, description);
    lemma_described_len(list, query, fuzzy, kind);
    let all = described_rows(list, query, fuzzy, kind);
    let i = choose|i: int|
        0 <= i < all.len() && {
            let row = #[trigger] all[i];
            row.name == name && row.description == description && row.kind == kind
        };
    assert(builtin_rows(builtin, reply, query, fuzzy) == all);
    assert(builtin_rows(builtin, reply, query, fuzzy)[i].name == name);
}

proof fn lemma_described_len(list: Seq<Seq<char>>, query: Seq<char>, fuzzy: bool, kind: Seq<char>)
    ensures
        described_rows(list, query, fuzzy, kind).len() <= list.len(),
    decreases list.len(),
{
    if list.len() > 0 {
        lemma_described_len(list.drop_last(), query, fuzzy, kind);
    }
}

/// A script without a host is asked for with its own words, and its output, split
/// where the generator says, gives a row for every part that matches.
pub proof fn law_scripts_are_run_and_split(
    replies: Seq<Reply>,
    generator: GeneratorSpec,
    cwd: Seq<char>,
    query: Seq<char>,
    fuzzy: bool,
    timeout_ms: u64,
    at: int,
    stdout: Seq<char>,
    separator: Seq<char>,
    k: int,
)
    requires
        generator.script@.len() > 0,
        cwd.len() > 0,
        0 <= at <= replies.len(),
    ensures
        at == replies.len() ==> plain_script_part(
            replies,
            generator,
            cwd,
            query,
            fuzzy,
            timeout_ms,
            at,
        ) == crate::generate::ask::Asked::<(Seq<SuggestionView>, int)>::Asks(
            AskView::Script {
                command: generator.script@[0]@,
                args: texts(generator.script@.skip(1)),
                timeout_ms,
            },
        ),
        at < replies.len() && (replies[at] matches Reply::Output(Some(text)) && text@ == stdout) && (
        generator.split_on matches Some(sep) && sep@ == separator) && output_parts(stdout, separator).len()
            <= 50 && 0 <= k < output_parts(stdout, separator).len() && is_match(
            output_parts(stdout, separator)[k],
            query,
            fuzzy,
        ) ==> {
            let part = plain_script_part(replies, generator, cwd, query, fuzzy, timeout_ms, at);
            &&& part is Done
            &&& part->Done_0.1 == at + 1
            &&& offers_text(part->Done_0.0, output_parts(stdout, separator)[k])
        },
{
    assert(texts(generator.script@).skip(1) =~= texts(generator.script@.skip(1)));
    if at < replies.len() && (replies[at] matches Reply::Output(Some(text)) && text@ == stdout) && (
    generator.split_on matches Some(sep) && sep@ == separator) && output_parts(stdout, separator).len()
        <= 50 && 0 <= k < output_parts(stdout, separator).len() && is_match(
        output_parts(stdout, separator)[k],
        query,
        fuzzy,
    ) {
        let parts = output_parts(stdout, separator);
        law_matching_keeps_what_matches(parts, Seq::empty(), query, fuzzy);
        let kept = matching(parts, query, fuzzy);
        super::shape::lemma_matching_len(parts, query, fuzzy);
        assert(parts.contains(parts[k]));
        assert(kept.contains(parts[k]));
        let i = choose|i: int| 0 <= i < kept.len() && kept[i] == parts[k];
        let part = plain_script_part(replies, generator, cwd, query, fuzzy, timeout_ms, at);
        assert(part->Done_0.0[i].name == parts[k]);
    }
}

/// Some row offers the text and inserts it.
pub open spec fn offers_text(list: Seq<SuggestionView>, text: Seq<char>) -> bool {
    exists|p: int|
        0 <= p < list.len() && (#[trigger] list[p]).name == text && list[p].insert_value == Some(text)
}

proof fn lemma_uncovered(templates: Seq<Template>, generators: Seq<Arc<GeneratorSpec>>, t: Template)
    requires
        templates.contains(t),
    ensures
        is_covered(t, generators) || uncovered(templates, generators).contains(t),
    decreases templates.len(),
{
    let rest = templates.drop_last();
    let out = uncovered(templates, generators);
    let earlier = uncovered(rest, generators);
    let k = choose|k: int| 0 <= k < templates.len() && templates[k] == t;
    if !is_covered(t, generators) {
        if k < rest.len() {
            assert(rest[k] == t);
            lemma_uncovered(rest, generators, t);
            let i = choose|i: int| 0 <= i < earlier.len() && earlier[i] == t;
            assert(out[i] == t);
        } else {
            assert(out.last() == t);
        }
    }
}

/// Every template of an argument is filled in by one of its generators, and the
/// generators that it lists run first and in their order.
pub proof fn law_templates_are_filled_in(
    generators: Seq<Arc<GeneratorSpec>>,
    arg: ArgSpec,
    t: Template,
)
    requires
        are_effective(generators, arg),
        arg.templates@.contains(t),
    ensures
        exists|i: int|
            0 <= i < generators.len() && (#[trigger] generators[i]).templates@.contains(t),
        arg.generators@.len() <= generators.len(),
        generators.take(arg.generators@.len() as int) == arg.generators@,
{
    let own = arg.generators@;
    lemma_uncovered(arg.templates@, own, t);
    assert(generators.take(own.len() as int) =~= own) by {
        if own.len() > 0 && uncovered(arg.templates@, own).len() > 0 {
            assert(generators.drop_last() =~= generators.take(own.len() as int));
        }
    }
    if own.len() == 0 {
        assert(generators[0].templates@.contains(t));
    } else if is_covered(t, own) {
        let i = choose|i: int| 0 <= i < own.len() && (#[trigger] own[i]).templates@.contains(t);
        assert(generators.take(own.len() as int)[i] == generators[i]);
        assert(generators[i].templates@.contains(t));
    } else {
        assert(generators[generators.len() - 1].templates@.contains(t));
    }
}

/// Rows that were there stay in front while generators add theirs.
proof fn lemma_turns_append(
    input: GenerateInput<'_>,
    arg: ArgSpec,
    generators: Seq<Arc<GeneratorSpec>>,
    changed: bool,
    previous: Seq<char>,
    start: Progress,
    n: int,
)
    requires
        after_turns(input, arg, generators, changed, previous, start, n) is Done,
    ensures
        ({
            let p = after_turns(input, arg, generators, changed, previous, start, n)->Done_0;
            p.rows.len() >= start.rows.len() && p.rows.take(start.rows.len() as int) == start.rows
        }),
    decreases n,
{
    let m = start.rows.len() as int;
    if n > 0 {
        lemma_turns_append(input, arg, generators, changed, previous, start, n - 1);
        let before = after_turns(input, arg, generators, changed, previous, start, n - 1)->Done_0;
        let after = after_turns(input, arg, generators, changed, previous, start, n)->Done_0;
        assert(after.rows.len() >= before.rows.len());
        assert(after.rows.take(m) =~= before.rows.take(m));
    } else {
        assert(start.rows.take(m) =~= start.rows);
    }
}

/// Some row of the list has the name, kind and text to insert.
pub open spec fn shows_suggestion(list: Seq<SuggestionView>, row: SuggestionView) -> bool {
    exists|q: int|
        0 <= q < list.len() && (#[trigger] list[q]).name == row.name && list[q].kind == row.kind
            && list[q].insert_value == row.insert_value
}

proof fn lemma_finished_rows_show(
    list: Seq<SuggestionView>,
    dangerous: bool,
    term: Seq<char>,
    search_term: Seq<char>,
    has_rule: bool,
    k: int,
)
    requires
        0 <= k < list.len(),
    ensures
        shows_suggestion(
            without_duplicates(
                stamped_rows(endangered(list, dangerous), term, search_term, has_rule),
            ),
            list[k],
        ),
{
    let a = endangered(list, dangerous);
    let b = stamped_rows(a, term, search_term, has_rule);
    law_danger_is_passed_on(list, dangerous, k);
    law_rows_are_matched_against_the_term(a, term, search_term, has_rule, k);
    assert(a[k].kind == list[k].kind && a[k].insert_value == list[k].insert_value);
    crate::generate::seeds::law_suggestions_are_distinct(b);
    let out = without_duplicates(b);
    assert(crate::generate::seeds::holds_suggestion(out, b[k]));
    let q = choose|q: int|
        0 <= q < out.len() && crate::generate::seeds::same_suggestion(#[trigger] out[q], b[k]);
    assert(out[q].name == list[k].name);
}

/// The suggestions that an argument lists are among its rows, whatever its
/// generators add.
pub proof fn law_listed_suggestions_are_offered(
    input: GenerateInput<'_>,
    arg: ArgSpec,
    generators: Seq<Arc<GeneratorSpec>>,
    query: Seq<char>,
    session: SessionView,
    k: int,
    n: int,
)
    requires
        rows_of_arg(input, arg, generators, query, session) is Done,
        arg.meta.get_query_term is None,
        arg.js_get_query_term is None,
        arg.meta.js_get_query_term is None,
        0 <= k < arg.suggestions@.len(),
        is_plain_seed(arg.suggestions@[k]),
        0 <= n < arg.suggestions@[k].names@.len(),
        is_match(arg.suggestions@[k].names@[n]@, query, input.fuzzy),
    ensures
        ({
            let out = rows_of_arg(input, arg, generators, query, session)->Done_0.rows;
            exists|q: int|
                {
                    &&& 0 <= q < out.len()
                    &&& texts(arg.suggestions@[k].names@).contains((#[trigger] out[q]).name)
                    &&& is_match(out[q].name, query, input.fuzzy)
                    &&& out[q].insert_value == opt_text(arg.suggestions@[k].meta.insert_value)
                }
        }),
{
    let id = arg_identity(texts(input.tokens@), arg, input.cwd@, input.search_term@);
    let changed = session.arg_id != id;
    let previous = if changed { Seq::empty() } else { session.search_term };
    let start = first_progress(input, arg, query, session, changed, generators.len());
    let count = generators.len() as int;
    lemma_turns_append(input, arg, generators, changed, previous, start, count);
    let p = after_turns(input, arg, generators, changed, previous, start, count)->Done_0;
    let q = SeedQuery {
        query,
        search_term: input.search_term@,
        fuzzy: input.fuzzy,
        hooks: crate::runtime::hooks_at_hand(input.hooks),
    };
    law_listed_suggestions_have_rows(arg.suggestions@, arg.meta.is_dangerous, q, k, n);
    let seed = arg.suggestions@[k];
    let own = start.rows;
    assert(own == seed_rows(arg.suggestions@, arg.meta.is_dangerous, q));
    let i = choose|i: int|
        {
            &&& 0 <= i < own.len()
            &&& (#[trigger] own[i]).alias_names == texts(seed.names@)
            &&& texts(seed.names@).contains(own[i].name)
            &&& is_match(own[i].name, q.query, q.fuzzy)
            &&& own[i].description == seed.description@
            &&& own[i].insert_value == opt_text(seed.meta.insert_value)
        };
    assert(p.rows.take(own.len() as int)[i] == p.rows[i]);
    lemma_finished_rows_show(p.rows, arg.meta.is_dangerous, query, input.search_term@, false, i);
    let out = rows_of_arg(input, arg, generators, query, session)->Done_0.rows;
    assert(shows_suggestion(out, own[i]));
    let z = choose|z: int|
        0 <= z < out.len() && (#[trigger] out[z]).name == own[i].name && out[z].kind == own[i].kind
            && out[z].insert_value == own[i].insert_value;
    assert(texts(seed.names@).contains(out[z].name));
}

spec fn term_for(input: GenerateInput<'_>, arg: ArgSpec, generator: Arc<GeneratorSpec>) -> Seq<char> {
    generator_term(input, arg, *generator)
}

spec fn is_ruled(arg: ArgSpec, generator: Arc<GeneratorSpec>) -> bool {
    has_term_rule(arg, *generator)
}

/// The rows that the generator of a new argument makes are all offered, and they
/// are kept for the next call; nothing is left waiting.
pub proof fn law_generated_rows_of_new_arguments(
    input: GenerateInput<'_>,
    arg: ArgSpec,
    generators: Seq<Arc<GeneratorSpec>>,
    query: Seq<char>,
    session: SessionView,
    fresh: Seq<SuggestionView>,
    next: int,
    k: int,
)
    requires
        generators.len() == 1,
        arg.debounce_ms is None,
        session.arg_id != arg_identity(texts(input.tokens@), arg, input.cwd@, input.search_term@),
        generated(
            input,
            arg,
            *generators[0],
            generator_term(input, arg, *generators[0]),
            0,
        ) == crate::generate::ask::Asked::Done((fresh, next)),
        0 <= k < fresh.len(),
    ensures
        rows_of_arg(input, arg, generators, query, session) is Done,
        ({
            let view = rows_of_arg(input, arg, generators, query, session)->Done_0;
            &&& shows_suggestion(view.rows, fresh[k])
            &&& !view.pending.waiting
            &&& view.session.entries.len() == 1
            &&& view.session.entries[0].results == fresh
            &&& view.session.entries[0].ran
            &&& view.session.search_term == input.search_term@
        }),
{
    let none = Seq::<char>::empty();
    let start = first_progress(input, arg, query, session, true, 1);
    assert(after_turns(input, arg, generators, true, none, start, 0)
        == crate::generate::ask::Asked::Done(start));
    let term = term_for(input, arg, generators[0]);
    let ruled = is_ruled(arg, generators[0]);
    let added = stamped_rows(fresh, term, input.search_term@, ruled);
    let p = after_turns(input, arg, generators, true, none, start, 1)->Done_0;
    assert(p.rows == start.rows + added);
    law_rows_are_matched_against_the_term(fresh, term, input.search_term@, ruled, k);
    let i = start.rows.len() + k;
    assert(p.rows[i as int] == added[k]);
    lemma_finished_rows_show(
        p.rows,
        arg.meta.is_dangerous,
        arg_term(input, arg, query),
        input.search_term@,
        has_arg_term_rule(arg),
        i as int,
    );
    let view = rows_of_arg(input, arg, generators, query, session)->Done_0;
    assert(shows_suggestion(view.rows, added[k]));
    let z = choose|z: int|
        0 <= z < view.rows.len() && (#[trigger] view.rows[z]).name == added[k].name
            && view.rows[z].kind == added[k].kind && view.rows[z].insert_value
            == added[k].insert_value;
    assert(view.rows[z].name == fresh[k].name);
}

/// While a word is typed its argument stays the same one: only the words before it
/// count.
pub proof fn law_typing_keeps_the_argument(
    before: Seq<Seq<char>>,
    first: Seq<char>,
    second: Seq<char>,
    arg: ArgSpec,
    cwd: Seq<char>,
)
    requires
        before.len() > 0,
        first.len() > 0,
        second.len() > 0,
    ensures
        arg_identity(before.push(first), arg, cwd, first) == arg_identity(
            before.push(second),
            arg,
            cwd,
            second,
        ),
        arg_identity(before.push(first), arg, cwd, first) == arg_identity(
            before,
            arg,
            cwd,
            Seq::empty(),
        ),
{
    assert(before.push(first).drop_last() =~= before);
    assert(before.push(second).drop_last() =~= before);
}

/// The time that a generator's script gets is never below the setting, nor below
/// what the generator or its argument asks for.
pub proof fn law_scripts_get_their_time(arg: ArgSpec, generator: GeneratorSpec, configured_ms: i64)
    requires
        0 <= configured_ms,
    ensures
        generator_timeout(arg, generator, configured_ms) >= configured_ms,
        generator.script_timeout_ms matches Some(ms) ==> generator_timeout(
            arg,
            generator,
            configured_ms,
        ) >= ms,
        generator.script_timeout_ms is None ==> (arg.script_timeout_ms matches Some(ms)
            ==> generator_timeout(arg, generator, configured_ms) >= ms),
{
}

/// Folders alone are listed where only folders are asked for; files alone where
/// folders are never shown.
pub proof fn law_path_templates(generator: GeneratorSpec, environment: Seq<(String, String)>)
    ensures
        generator.show_folders is None && generator.templates@.contains(Template::Filepaths)
            ==> !path_filter(generator, environment).folders_only,
        generator.show_folders is None && !generator.templates@.contains(Template::Filepaths)
            && generator.templates@.contains(Template::Folders) ==> path_filter(
            generator,
            environment,
        ).folders_only,
        generator.show_folders is None ==> !path_filter(generator, environment).files_only,
        generator.show_folders matches Some(text) ==> (text@ == "only"@ ==> path_filter(
            generator,
            environment,
        ).folders_only) && (text@ == "never"@ ==> path_filter(generator, environment).files_only),
{
    reveal_strlit("only");
    reveal_strlit("never");
    assert("only"@.len() != "never"@.len());
}

/// What earlier commands put in the slot is offered where the generator asks for
/// it: every value that matches.
pub proof fn law_history_values_are_offered(
    input: GenerateInput<'_>,
    generator: GeneratorSpec,
    query: Seq<char>,
    at: int,
    k: int,
)
    requires
        generator.templates@.contains(Template::History),
        !generator.templates@.contains(Template::Filepaths),
        !generator.templates@.contains(Template::Folders),
        generator.js_filter_template_suggestions is None,
        0 <= k < input.history_values@.len(),
        is_match(input.history_values@[k]@, query, input.fuzzy),
    ensures
        template_part(input, generator, query, at) is Done,
        template_part(input, generator, query, at)->Done_0.1 == at,
        offers_text(
            template_part(input, generator, query, at)->Done_0.0,
            input.history_values@[k]@,
        ),
{
    let values = texts(input.history_values@);
    let kept = matching_or_all(values, query, input.fuzzy);
    assert(values[k] == input.history_values@[k]@);
    assert(values.contains(values[k]));
    law_matching_keeps_what_matches(values, Seq::empty(), query, input.fuzzy);
    assert(kept.contains(values[k]));
    let i = choose|i: int| 0 <= i < kept.len() && kept[i] == values[k];
    let out = template_part(input, generator, query, at)->Done_0.0;
    assert(out[i].name == values[k]);
    assert(out[i].insert_value == Some(values[k]));
}

/// Tags and remotes are the lines of the output that match, as rows of their kind.
pub proof fn law_listed_builtins_have_rows(
    builtin: Builtin,
    reply: Reply,
    stdout: Seq<char>,
    query: Seq<char>,
    fuzzy: bool,
    k: int,
)
    requires
        builtin == Builtin::GitTags || builtin == Builtin::GitRemotes,
        reply matches Reply::Output(Some(text)) && text@ == stdout,
        0 <= k < lines_of(stdout).len() <= 50,
        trimmed(lines_of(stdout)[k]).len() > 0,
        is_match(trimmed(lines_of(stdout)[k]), query, fuzzy),
    ensures
        exists|i: int|
            {
                &&& 0 <= i < builtin_rows(builtin, reply, query, fuzzy).len()
                &&& (#[trigger] builtin_rows(builtin, reply, query, fuzzy)[i]).name == trimmed(
                    lines_of(stdout)[k],
                )
                &&& builtin_rows(builtin, reply, query, fuzzy)[i].kind == if builtin
                    == Builtin::GitTags {
                    "tag"@
                } else {
                    "remote"@
                }
            },
{
    let kind = if builtin == Builtin::GitTags { "tag"@ } else { "remote"@ };
    super::shape::law_line_rows_are_sorted(stdout, query, fuzzy, kind);
    let out = line_rows(stdout, query, fuzzy, kind);
    assert(builtin_rows(builtin, reply, query, fuzzy) == out);
    let lines = lines_of(stdout);
    assert(trimmed(lines[k]).len() > 0);
    let i = choose|i: int| 0 <= i < out.len() && (#[trigger] out[i]).name == trimmed(lines[k]);
    assert(out[i].kind == kind);
    assert(builtin_rows(builtin, reply, query, fuzzy)[i].name == trimmed(lines[k]));
}

/// Branches are the lines of the output with a name and no target that match, in
/// dictionary order.
pub proof fn law_branches_have_rows(
    reply: Reply,
    stdout: Seq<char>,
    query: Seq<char>,
    fuzzy: bool,
    k: int,
    name: Seq<char>,
)
    requires
        reply matches Reply::Output(Some(text)) && text@ == stdout,
        0 <= k < lines_of(stdout).len() <= 50,
        line_says(lines_of(stdout)[k], name, Seq::empty()),
        name.len() > 0,
        is_match(name, query, fuzzy),
    ensures
        ({
            let out = builtin_rows(Builtin::GitBranches, reply, query, fuzzy);
            &&& exists|i: int|
                0 <= i < out.len() && (#[trigger] out[i]).name == name && out[i].kind == "branch"@
            &&& forall|i: int, j: int| #![trigger out[i], out[j]]
                0 <= i < j < out.len() ==> crate::text::before(out[i].name, out[j].name)
        }),
{
    let list = lines_of(stdout);
    super::shape::law_branches_are_plain_lines(list, query, fuzzy);
    let names = branch_names(list, query, fuzzy);
    assert(names.contains(name));
    crate::sorted::law_sorted_set(names);
    let all = sorted_set(names);
    assert(all.contains(name));
    lemma_branch_len(list, query, fuzzy);
    super::shape::lemma_sorted_len(names);
    let i = choose|i: int| 0 <= i < all.len() && all[i] == name;
    let out = builtin_rows(Builtin::GitBranches, reply, query, fuzzy);
    assert(out[i].name == name);
    assert forall|i: int, j: int| #![trigger out[i], out[j]] 0 <= i < j < out.len() implies crate::text::before(
        out[i].name,
        out[j].name,
    ) by {
        assert(out[i].name == all[i]);
        assert(out[j].name == all[j]);
    }
}

proof fn lemma_branch_len(list: Seq<Seq<char>>, query: Seq<char>, fuzzy: bool)
    ensures
        branch_names(list, query, fuzzy).len() <= list.len(),
    decreases list.len(),
{
    if list.len() > 0 {
        lemma_branch_len(list.drop_last(), query, fuzzy);
    }
}

/// The built-in generators of an argument are asked one by one, each once; the rows
/// of each come behind those of the one before it.
pub proof fn law_builtins_are_asked_in_turn(
    replies: Seq<Reply>,
    list: Seq<Builtin>,
    query: Seq<char>,
    fuzzy: bool,
    timeout_ms: u64,
    at: int,
)
    requires
        list.len() == 2,
        list[0] != list[1],
        0 <= at <= replies.len(),
    ensures
        at == replies.len() ==> builtin_part(replies, list, query, fuzzy, timeout_ms, at, 2)
            == crate::generate::ask::Asked::<(Seq<SuggestionView>, int)>::Asks(
            builtin_ask(list[0], timeout_ms),
        ),
        at + 1 == replies.len() ==> builtin_part(replies, list, query, fuzzy, timeout_ms, at, 2)
            == crate::generate::ask::Asked::<(Seq<SuggestionView>, int)>::Asks(
            builtin_ask(list[1], timeout_ms),
        ),
        at + 2 <= replies.len() ==> builtin_part(replies, list, query, fuzzy, timeout_ms, at, 2)
            == crate::generate::ask::Asked::Done(
            (
                builtin_rows(list[0], replies[at], query, fuzzy) + builtin_rows(
                    list[1],
                    replies[at + 1],
                    query,
                    fuzzy,
                ),
                at + 2,
            ),
        ),
{
    let none = Seq::<SuggestionView>::empty();
    assert(list.take(0) =~= Seq::<Builtin>::empty());
    assert(list.take(1) =~= seq![list[0]]);
    assert(!list.take(0).contains(list[0]));
    assert(!list.take(1).contains(list[1])) by {
        if list.take(1).contains(list[1]) {
            let i = choose|i: int| 0 <= i < 1 && list.take(1)[i] == list[1];
            assert(list.take(1)[0] == list[0]);
        }
    }
    let zero = builtin_part(replies, list, query, fuzzy, timeout_ms, at, 0);
    let one = builtin_part(replies, list, query, fuzzy, timeout_ms, at, 1);
    if at < replies.len() {
        let first = builtin_rows(list[0], replies[at], query, fuzzy);
        assert(none + first =~= first);
        assert(one == crate::generate::ask::Asked::Done((first, at + 1)));
    }
}

/// What a hook of the user's own answers is offered where it matches.
pub proof fn law_custom_rows_are_offered(
    replies: Seq<Reply>,
    generator: GeneratorSpec,
    own_timeout: Option<i64>,
    cwd: Seq<char>,
    query: Seq<char>,
    fuzzy: bool,
    timeout_ms: u64,
    at: int,
    answer: Seq<SuggestionView>,
    k: int,
)
    requires
        cwd.len() > 0,
        generator.js_script is None,
        generator.script@.len() == 0,
        generator.js_custom is Some,
        0 <= at < replies.len(),
        replies[at] matches Reply::Rows(Some(list)) && crate::runtime::rows(list@) == answer,
        0 <= k < answer.len(),
        is_match(answer[k].name, query, fuzzy),
        !answer[k].hidden,
    ensures
        ({
            let part = hosted_part(
                replies,
                generator,
                own_timeout,
                cwd,
                query,
                fuzzy,
                timeout_ms,
                at,
            );
            &&& part is Done
            &&& part->Done_0.0.contains(answer[k])
            &&& part->Done_0.1 == at + 1
        }),
{
    law_shown_rows_match(answer, query, fuzzy);
    let none = Seq::<SuggestionView>::empty();
    assert(answer.contains(answer[k]));
    assert(shown_rows(answer, query, fuzzy).contains(answer[k]));
    assert(shown_rows(none, query, fuzzy) =~= none);
    let shown = shown_rows(answer, query, fuzzy);
    assert(none + shown =~= shown);
    assert(texts(generator.script@).len() == 0);
}

proof fn lemma_seed_hooks(seeds: Seq<SuggestionSeed>, n: int, k: int, hook: Seq<char>)
    requires
        0 <= k < n <= seeds.len(),
        seeds[k].meta.get_query_term is None,
        seeds[k].meta.js_get_query_term matches Some(text) && text@ == hook,
        hook.len() > 0,
    ensures
        seed_hooks(seeds, n).contains(hook),
    decreases n,
{
    let earlier = seed_hooks(seeds, n - 1);
    let out = seed_hooks(seeds, n);
    if k < n - 1 {
        lemma_seed_hooks(seeds, n - 1, k, hook);
        let i = choose|i: int| 0 <= i < earlier.len() && earlier[i] == hook;
        assert(out[i] == hook);
    } else {
        assert(out[earlier.len() as int] == hook);
    }
}

/// Every hook that computes the term of a suggestion is asked for.
pub proof fn law_hooks_of_suggestions_are_asked(
    arg: ArgSpec,
    generators: Seq<Arc<GeneratorSpec>>,
    k: int,
    hook: Seq<char>,
)
    requires
        0 <= k < arg.suggestions@.len(),
        arg.suggestions@[k].meta.get_query_term is None,
        arg.suggestions@[k].meta.js_get_query_term matches Some(text) && text@ == hook,
        hook.len() > 0,
    ensures
        term_hooks(arg, generators).contains(hook),
{
    let n = arg.suggestions@.len() as int;
    lemma_seed_hooks(arg.suggestions@, n, k, hook);
    let own = seed_hooks(arg.suggestions@, n);
    let i = choose|i: int| 0 <= i < own.len() && own[i] == hook;
    let out = term_hooks(arg, generators);
    assert(out[out.len() - own.len() + i] == hook);
}

} // verus!
