//! Static rows of arguments, and what is done to rows whatever their source.
use vstd::prelude::*;

use crate::ir::{ArgSpec, SuggestionSeed};
use crate::query::{is_match, matches_query};
use crate::runtime::{
    hooks_at_hand, new_row, priority_or_default, row_term, rows, suggestion_query_term_with_hook,
    HookTerms, Suggestion, SuggestionView,
};
use crate::text::{
    as_text, begins_with, chars_of, concat, copy_texts, ends_with, finishes_with,
    holds_ignoring_case, holds_ignoring_case_spec, join, joined, lowered, opt_text, same,
    same_ignoring_case, same_optional, starts_with, text_range, texts,
};

verus! {

// ---------------------------------------------------------------------------
// Hidden rows
// ---------------------------------------------------------------------------
/// Whether a row shows: a hidden one only where its name is typed out.
pub open spec fn row_shows(row: SuggestionView, query: Seq<char>) -> bool {
    !row.hidden || lowered(row.name) == lowered(query)
}

/// Computes [`row_shows`].
pub fn hidden_generated_row_is_visible(row: &Suggestion, query: &str) -> (shows: bool)
    ensures
        shows == row_shows(row@, query@),
{
    !row.hidden || same_ignoring_case(&row.name, query)
}

/// What has to be typed to see a hidden static row: a folder ends in a slash.
pub open spec fn whole_query(query: Seq<char>, kind: Seq<char>) -> Seq<char> {
    if kind == "folder"@ && !finishes_with(query, "/"@) {
        query + "/"@
    } else {
        query
    }
}

/// Whether a static row shows: a hidden one only where one of its names is
/// typed out.
pub open spec fn seed_shows(seed: SuggestionSeed, query: Seq<char>, kind: Seq<char>) -> bool {
    !seed.meta.hidden || holds_ignoring_case_spec(seed.names@, whole_query(query, kind))
}

/// Computes [`seed_shows`].
pub fn hidden_static_seed_is_visible(seed: &SuggestionSeed, query: &str, kind: &str) -> (shows: bool)
    ensures
        shows == seed_shows(*seed, query@, kind@),
{
    if !seed.meta.hidden {
        return true;
    }
    let whole = if same(kind, "folder") && !ends_with(query, "/") {
        concat(query, "/")
    } else {
        query.to_owned()
    };
    holds_ignoring_case(&seed.names, &whole)
}

// ---------------------------------------------------------------------------
// Static rows
// ---------------------------------------------------------------------------
/// The first name that matches a query, from place `i` on.
pub open spec fn first_match(
    names: Seq<Seq<char>>,
    query: Seq<char>,
    fuzzy: bool,
    i: int,
) -> Option<Seq<char>>
    decreases names.len() - i,
{
    if i < 0 || i >= names.len() {
        None
    } else if is_match(names[i], query, fuzzy) {
        Some(names[i])
    } else {
        first_match(names, query, fuzzy, i + 1)
    }
}

/// The name under which a static row is offered: the first that matches, or
/// the first of all where the shown text matches.
pub open spec fn seed_name(seed: SuggestionSeed, query: Seq<char>, fuzzy: bool) -> Option<Seq<char>> {
    match first_match(texts(seed.names@), query, fuzzy, 0) {
        Some(name) => Some(name),
        None => match opt_text(seed.meta.display_name) {
            Some(display) => if is_match(display, query, fuzzy) && seed.names@.len() > 0 {
                Some(seed.names@[0]@)
            } else {
                None
            },
            None => None,
        },
    }
}

fn find_seed_name(seed: &SuggestionSeed, query: &str, fuzzy: bool) -> (name: Option<String>)
    ensures
        opt_text(name) == seed_name(*seed, query@, fuzzy),
{
    let ghost all = texts(seed.names@);
    let mut i: usize = 0;
    while i < seed.names.len()
        invariant
            i <= seed.names@.len(),
            all == texts(seed.names@),
            first_match(all, query@, fuzzy, 0) == first_match(all, query@, fuzzy, i as int),
        decreases seed.names@.len() - i,
    {
        if matches_query(&seed.names[i], query, fuzzy) {
            return Some(seed.names[i].clone());
        }
        i += 1;
    }
    if let Some(display) = &seed.meta.display_name {
        if matches_query(display, query, fuzzy) && seed.names.len() > 0 {
            return Some(seed.names[0].clone());
        }
    }
    None
}

/// The kind of a static row.
pub open spec fn seed_kind(seed: SuggestionSeed) -> Seq<char> {
    match seed.meta.suggestion_type {
        Some(kind) => kind@,
        None => "arg"@,
    }
}

/// The shown text of a static row: its own, else all its names.
pub open spec fn seed_display(seed: SuggestionSeed) -> Option<Seq<char>> {
    match seed.meta.display_name {
        Some(display) => Some(display@),
        None => if seed.names@.len() > 1 {
            Some(joined(texts(seed.names@), ", "@))
        } else {
            None
        },
    }
}

/// What the rows of an argument are held against.
pub struct SeedQuery {
    pub query: Seq<char>,
    pub search_term: Seq<char>,
    pub fuzzy: bool,
    pub hooks: Option<HookTerms>,
}

/// The row of a static suggestion, where it is offered.
pub open spec fn seed_row(
    seed: SuggestionSeed,
    dangerous: bool,
    q: SeedQuery,
) -> Option<SuggestionView> {
    let kind = seed_kind(seed);
    let (query, term) = row_term(
        kind,
        opt_text(seed.meta.get_query_term),
        opt_text(seed.meta.js_get_query_term),
        q.query,
        q.search_term,
        q.hooks,
    );
    match seed_name(seed, query, q.fuzzy) {
        None => None,
        Some(name) => if !seed_shows(seed, query, kind) {
            None
        } else {
            Some(
                SuggestionView {
                    args_hint: seed.args_hint@,
                    insert_value: opt_text(seed.meta.insert_value),
                    display_name: seed_display(seed),
                    separator_to_add: opt_text(seed.meta.separator_to_add),
                    should_add_space: seed.meta.should_add_space == Some(true),
                    hidden: seed.meta.hidden,
                    priority: priority_or_default(seed.meta.priority),
                    icon: opt_text(seed.meta.icon),
                    primary_name: if seed.names@.len() > 0 {
                        Some(seed.names@[0]@)
                    } else {
                        None
                    },
                    alias_names: texts(seed.names@),
                    is_dangerous: seed.meta.is_dangerous || dangerous,
                    original_type: opt_text(seed.meta.original_type),
                    query_term: term,
                    ..new_row(name, seed.description@, kind)
                },
            )
        },
    }
}

/// Computes [`seed_row`].
fn make_seed_row(
    seed: &SuggestionSeed,
    dangerous: bool,
    query: &str,
    search_term: &str,
    fuzzy: bool,
    hooks: Option<&HookTerms>,
) -> (row: Option<Suggestion>)
    ensures
        match row {
            Some(row) => seed_row(
                *seed,
                dangerous,
                (SeedQuery {
                    query: query@,
                    search_term: search_term@,
                    fuzzy,
                    hooks: hooks_at_hand(hooks),
                }),
            ) == Some(row@),
            None => seed_row(
                *seed,
                dangerous,
                (SeedQuery {
                    query: query@,
                    search_term: search_term@,
                    fuzzy,
                    hooks: hooks_at_hand(hooks),
                }),
            ) is None,
        },
{
    let kind = match &seed.meta.suggestion_type {
        Some(kind) => kind.as_str(),
        None => "arg",
    };
    let (seed_query, term) = suggestion_query_term_with_hook(
        kind,
        as_text(&seed.meta.get_query_term),
        as_text(&seed.meta.js_get_query_term),
        query,
        search_term,
        hooks,
    );
    let name = match find_seed_name(seed, &seed_query, fuzzy) {
        Some(name) => name,
        None => {
            return None;
        },
    };
    if !hidden_static_seed_is_visible(seed, &seed_query, kind) {
        return None;
    }
    let display_name: Option<String> = match &seed.meta.display_name {
        Some(display) => Some(display.clone()),
        None => if seed.names.len() > 1 {
            Some(join(&seed.names, ", "))
        } else {
            None
        },
    };
    let add_space = match seed.meta.should_add_space {
        Some(add) => add,
        None => false,
    };
    let primary: Option<String> = if seed.names.len() > 0 {
        Some(seed.names[0].clone())
    } else {
        None
    };
    let row = Suggestion::new(&name, &seed.description, kind).with_args_hint(
        seed.args_hint.clone(),
    ).with_meta(
        seed.meta.insert_value.clone(),
        display_name,
        seed.meta.separator_to_add.clone(),
        add_space,
        seed.meta.hidden,
        seed.meta.priority,
        seed.meta.icon.clone(),
    ).with_primary_name(primary).with_alias_names(copy_texts(&seed.names)).with_dangerous(
        seed.meta.is_dangerous || dangerous,
    ).with_original_type(seed.meta.original_type.clone()).with_query_term(term);
    Some(row)
}

/// The rows of static suggestions, those that are offered.
pub open spec fn seed_rows(seeds: Seq<SuggestionSeed>, dangerous: bool, q: SeedQuery) -> Seq<
    SuggestionView,
>
    decreases seeds.len(),
{
    if seeds.len() == 0 {
        Seq::empty()
    } else {
        let earlier = seed_rows(seeds.drop_last(), dangerous, q);
        match seed_row(seeds.last(), dangerous, q) {
            Some(row) => earlier.push(row),
            None => earlier,
        }
    }
}

/// Computes [`seed_rows`] of an argument.
pub fn generate_static_seeds(
    arg: &ArgSpec,
    query: &str,
    search_term: &str,
    fuzzy: bool,
    hooks: Option<&HookTerms>,
) -> (out: Vec<Suggestion>)
    ensures
        rows(out@) == seed_rows(
            arg.suggestions@,
            arg.meta.is_dangerous,
            (SeedQuery {
                query: query@,
                search_term: search_term@,
                fuzzy,
                hooks: hooks_at_hand(hooks),
            }),
        ),
{
    let ghost q = SeedQuery {
        query: query@,
        search_term: search_term@,
        fuzzy,
        hooks: hooks_at_hand(hooks),
    };
    let ghost seeds = arg.suggestions@;
    let mut out: Vec<Suggestion> = Vec::new();
    let mut i: usize = 0;
    proof {
        assert(rows(out@) =~= Seq::<SuggestionView>::empty());
    }
    while i < arg.suggestions.len()
        invariant
            i <= arg.suggestions@.len(),
            seeds == arg.suggestions@,
            q == (SeedQuery {
                query: query@,
                search_term: search_term@,
                fuzzy,
                hooks: hooks_at_hand(hooks),
            }),
            rows(out@) == seed_rows(seeds.take(i as int), arg.meta.is_dangerous, q),
        decreases arg.suggestions@.len() - i,
    {
        proof {
            assert(seeds.take(i + 1).drop_last() =~= seeds.take(i as int));
            assert(seeds.take(i + 1).last() == seeds[i as int]);
        }
        if let Some(row) = make_seed_row(
            &arg.suggestions[i],
            arg.meta.is_dangerous,
            query,
            search_term,
            fuzzy,
            hooks,
        ) {
            let ghost had = out@;
            let ghost view = row@;
            out.push(row);
            proof {
                assert(rows(out@) =~= rows(had).push(view));
            }
        }
        i += 1;
    }
    proof {
        assert(seeds.take(seeds.len() as int) =~= seeds);
    }
    out
}

// ---------------------------------------------------------------------------
// Rows that were kept
// ---------------------------------------------------------------------------
/// The rows that match a query and show.
pub open spec fn matching_rows(list: Seq<SuggestionView>, query: Seq<char>, fuzzy: bool) -> Seq<
    SuggestionView,
>
    decreases list.len(),
{
    if list.len() == 0 {
        Seq::empty()
    } else {
        let earlier = matching_rows(list.drop_last(), query, fuzzy);
        let row = list.last();
        if (query.len() == 0 || is_match(row.name, query, fuzzy)) && row_shows(row, query) {
            earlier.push(row)
        } else {
            earlier
        }
    }
}

/// Computes [`matching_rows`].
pub fn refilter_generated(list: &[Suggestion], query: &str, fuzzy: bool) -> (out: Vec<Suggestion>)
    ensures
        rows(out@) == matching_rows(rows(list@), query@, fuzzy),
{
    let ghost all = rows(list@);
    let mut out: Vec<Suggestion> = Vec::new();
    let mut i: usize = 0;
    proof {
        assert(rows(out@) =~= Seq::<SuggestionView>::empty());
    }
    while i < list.len()
        invariant
            i <= list@.len(),
            all == rows(list@),
            rows(out@) == matching_rows(all.take(i as int), query@, fuzzy),
        decreases list@.len() - i,
    {
        proof {
            assert(all.take(i + 1).drop_last() =~= all.take(i as int));
            assert(all.take(i + 1).last() == list@[i as int]@);
        }
        if (query.is_empty() || matches_query(&list[i].name, query, fuzzy))
            && hidden_generated_row_is_visible(&list[i], query) {
            let ghost had = out@;
            out.push(list[i].clone());
            proof {
                assert(rows(out@) =~= rows(had).push(list@[i as int]@));
            }
        }
        i += 1;
    }
    proof {
        assert(all.take(all.len() as int) =~= all);
    }
    out
}

/// The rows whose name matches a query and that show.
pub open spec fn shown_rows(list: Seq<SuggestionView>, query: Seq<char>, fuzzy: bool) -> Seq<
    SuggestionView,
>
    decreases list.len(),
{
    if list.len() == 0 {
        Seq::empty()
    } else {
        let earlier = shown_rows(list.drop_last(), query, fuzzy);
        let row = list.last();
        if is_match(row.name, query, fuzzy) && row_shows(row, query) {
            earlier.push(row)
        } else {
            earlier
        }
    }
}

/// Computes [`shown_rows`].
pub fn filter_generated(list: &[Suggestion], query: &str, fuzzy: bool) -> (out: Vec<Suggestion>)
    ensures
        rows(out@) == shown_rows(rows(list@), query@, fuzzy),
{
    let ghost all = rows(list@);
    let mut out: Vec<Suggestion> = Vec::new();
    let mut i: usize = 0;
    proof {
        assert(rows(out@) =~= Seq::<SuggestionView>::empty());
    }
    while i < list.len()
        invariant
            i <= list@.len(),
            all == rows(list@),
            rows(out@) == shown_rows(all.take(i as int), query@, fuzzy),
        decreases list@.len() - i,
    {
        proof {
            assert(all.take(i + 1).drop_last() =~= all.take(i as int));
            assert(all.take(i + 1).last() == list@[i as int]@);
        }
        if matches_query(&list[i].name, query, fuzzy) && hidden_generated_row_is_visible(
            &list[i],
            query,
        ) {
            let ghost had = out@;
            out.push(list[i].clone());
            proof {
                assert(rows(out@) =~= rows(had).push(list@[i as int]@));
            }
        }
        i += 1;
    }
    proof {
        assert(all.take(all.len() as int) =~= all);
    }
    out
}

// ---------------------------------------------------------------------------
// Terms of rows
// ---------------------------------------------------------------------------
/// Whether a path row's name already holds the directory that was typed before
/// the query term.
pub open spec fn holds_directory(
    name: Seq<char>,
    kind: Seq<char>,
    search_term: Seq<char>,
    query_term: Seq<char>,
) -> bool {
    let directory = search_term.take(search_term.len() - query_term.len());
    &&& kind == "file"@ || kind == "folder"@
    &&& finishes_with(search_term, query_term)
    &&& search_term.len() > query_term.len()
    &&& begins_with(name, directory)
}

/// Computes [`holds_directory`].
pub fn path_row_already_includes_directory_prefix(
    name: &str,
    kind: &str,
    search_term: &str,
    query_term: &str,
) -> (yes: bool)
    ensures
        yes == holds_directory(name@, kind@, search_term@, query_term@),
{
    if !(same(kind, "file") || same(kind, "folder")) {
        return false;
    }
    if !ends_with(search_term, query_term) {
        return false;
    }
    let s = chars_of(search_term);
    let q = chars_of(query_term);
    if s.len() <= q.len() {
        return false;
    }
    let directory = text_range(&s, 0, s.len() - q.len());
    proof {
        assert(directory@ =~= s@.take(s@.len() - q@.len()));
    }
    starts_with(name, &directory)
}

/// A row with the query term, unless it has one or its name holds the typed
/// directory: inserting such a row replaces the whole search term.
pub open spec fn stamped(
    row: SuggestionView,
    query_term: Seq<char>,
    search_term: Seq<char>,
) -> SuggestionView {
    if row.query_term is Some || holds_directory(row.name, row.kind, search_term, query_term) {
        row
    } else {
        SuggestionView { query_term: Some(query_term), ..row }
    }
}

/// The rows with the query term, where there is a rule for it.
pub open spec fn stamped_rows(
    list: Seq<SuggestionView>,
    query_term: Seq<char>,
    search_term: Seq<char>,
    has_rule: bool,
) -> Seq<SuggestionView> {
    if has_rule {
        Seq::new(list.len(), |i: int| stamped(list[i], query_term, search_term))
    } else {
        list
    }
}

/// Computes [`stamped_rows`].
pub fn stamp_query_term(
    list: &mut Vec<Suggestion>,
    query_term: &str,
    search_term: &str,
    has_rule: bool,
)
    ensures
        rows(final(list)@) == stamped_rows(rows(old(list)@), query_term@, search_term@, has_rule),
{
    if !has_rule {
        return;
    }
    let ghost start = rows(list@);
    let ghost stated = stamped_rows(start, query_term@, search_term@, true);
    let mut out: Vec<Suggestion> = Vec::new();
    let mut i: usize = 0;
    proof {
        assert(rows(out@) =~= stated.take(0));
    }
    while i < list.len()
        invariant
            i <= list@.len(),
            start == rows(list@),
            stated == stamped_rows(start, query_term@, search_term@, true),
            rows(out@) == stated.take(i as int),
        decreases list@.len() - i,
    {
        let mut row = list[i].clone();
        if row.query_term.is_none() && !path_row_already_includes_directory_prefix(
            &row.name,
            &row.kind,
            search_term,
            query_term,
        ) {
            row = row.with_query_term(Some(query_term.to_owned()));
        }
        let ghost had = out@;
        let ghost view = row@;
        out.push(row);
        proof {
            assert(view == stated[i as int]);
            assert(rows(out@) =~= rows(had).push(view));
            assert(stated.take(i + 1) =~= stated.take(i as int).push(view));
        }
        i += 1;
    }
    proof {
        assert(stated.take(stated.len() as int) =~= stated);
    }
    *list = out;
}

/// The rows marked as dangerous.
pub open spec fn endangered(list: Seq<SuggestionView>, dangerous: bool) -> Seq<SuggestionView> {
    if dangerous {
        Seq::new(list.len(), |i: int| SuggestionView { is_dangerous: true, ..list[i] })
    } else {
        list
    }
}

/// Computes [`endangered`].
pub fn mark_dangerous(list: &mut Vec<Suggestion>, dangerous: bool)
    ensures
        rows(final(list)@) == endangered(rows(old(list)@), dangerous),
{
    if !dangerous {
        return;
    }
    let ghost start = rows(list@);
    let ghost stated = endangered(start, true);
    let mut out: Vec<Suggestion> = Vec::new();
    let mut i: usize = 0;
    proof {
        assert(rows(out@) =~= stated.take(0));
    }
    while i < list.len()
        invariant
            i <= list@.len(),
            start == rows(list@),
            stated == endangered(start, true),
            rows(out@) == stated.take(i as int),
        decreases list@.len() - i,
    {
        let row = list[i].clone().with_dangerous(true);
        let ghost had = out@;
        let ghost view = row@;
        out.push(row);
        proof {
            assert(view == stated[i as int]);
            assert(rows(out@) =~= rows(had).push(view));
            assert(stated.take(i + 1) =~= stated.take(i as int).push(view));
        }
        i += 1;
    }
    proof {
        assert(stated.take(stated.len() as int) =~= stated);
    }
    *list = out;
}

// ---------------------------------------------------------------------------
// Duplicates
// ---------------------------------------------------------------------------
/// Whether two rows stand for the same suggestion.
pub open spec fn same_suggestion(a: SuggestionView, b: SuggestionView) -> bool {
    a.name == b.name && a.kind == b.kind && a.insert_value == b.insert_value
}

/// Whether a list holds a row for the same suggestion.
pub open spec fn holds_suggestion(list: Seq<SuggestionView>, row: SuggestionView) -> bool {
    exists|i: int| 0 <= i < list.len() && same_suggestion(#[trigger] list[i], row)
}

/// The rows without those whose suggestion stands before.
pub open spec fn without_duplicates(list: Seq<SuggestionView>) -> Seq<SuggestionView>
    decreases list.len(),
{
    if list.len() == 0 {
        Seq::empty()
    } else {
        let earlier = without_duplicates(list.drop_last());
        if holds_suggestion(earlier, list.last()) {
            earlier
        } else {
            earlier.push(list.last())
        }
    }
}

/// Computes [`without_duplicates`].
pub fn dedup_suggestions(list: &mut Vec<Suggestion>)
    ensures
        rows(final(list)@) == without_duplicates(rows(old(list)@)),
{
    let ghost all = rows(list@);
    let mut out: Vec<Suggestion> = Vec::new();
    let mut i: usize = 0;
    proof {
        assert(rows(out@) =~= Seq::<SuggestionView>::empty());
    }
    while i < list.len()
        invariant
            i <= list@.len(),
            all == rows(list@),
            rows(out@) == without_duplicates(all.take(i as int)),
        decreases list@.len() - i,
    {
        proof {
            assert(all.take(i + 1).drop_last() =~= all.take(i as int));
            assert(all.take(i + 1).last() == list@[i as int]@);
        }
        let row = &list[i];
        let mut known = false;
        let mut k: usize = 0;
        while k < out.len() && !known
            invariant
                k <= out@.len(),
                known == exists|j: int|
                    0 <= j < k && same_suggestion(#[trigger] rows(out@)[j], row@),
            decreases out@.len() - k,
        {
            let equal = same(&out[k].name, &row.name) && same(&out[k].kind, &row.kind)
                && same_optional(&out[k].insert_value, &row.insert_value);
            proof {
                assert(rows(out@)[k as int] == out@[k as int]@);
            }
            if equal {
                known = true;
                proof {
                    assert(same_suggestion(rows(out@)[k as int], row@));
                }
            }
            k += 1;
        }
        proof {
            if known {
                assert(holds_suggestion(rows(out@), row@));
            } else {
                assert(!holds_suggestion(rows(out@), row@));
            }
        }
        if !known {
            let ghost had = out@;
            out.push(row.clone());
            proof {
                assert(rows(out@) =~= rows(had).push(row@));
            }
        }
        i += 1;
    }
    proof {
        assert(all.take(all.len() as int) =~= all);
    }
    *list = out;
}

// ---------------------------------------------------------------------------
// Laws
// ---------------------------------------------------------------------------
/// No suggestion is offered twice, and none is lost.
pub proof fn law_suggestions_are_distinct(list: Seq<SuggestionView>)
    ensures
        ({
            let kept = without_duplicates(list);
            &&& forall|i: int, j: int|
                #![trigger kept[i], kept[j]]
                0 <= i < j < kept.len() ==> !same_suggestion(kept[i], kept[j])
            &&& forall|i: int|
                0 <= i < list.len() ==> holds_suggestion(kept, #[trigger] list[i])
        }),
    decreases list.len(),
{
    if list.len() > 0 {
        let rest = list.drop_last();
        law_suggestions_are_distinct(rest);
        let earlier = without_duplicates(rest);
        let kept = without_duplicates(list);
        assert forall|i: int| 0 <= i < list.len() implies holds_suggestion(
            kept,
            #[trigger] list[i],
        ) by {
            if i < rest.len() {
                assert(rest[i] == list[i]);
                assert(holds_suggestion(earlier, rest[i]));
                let k = choose|k: int|
                    0 <= k < earlier.len() && same_suggestion(#[trigger] earlier[k], rest[i]);
                assert(same_suggestion(kept[k], list[i]));
            } else if !holds_suggestion(earlier, list.last()) {
                assert(same_suggestion(kept[kept.len() - 1], list[i]));
            }
        }
        assert forall|i: int, j: int|
            #![trigger kept[i], kept[j]]
            0 <= i < j < kept.len() implies !same_suggestion(kept[i], kept[j]) by {
            if j == earlier.len() {
                assert(same_suggestion(earlier[i], list.last()) ==> holds_suggestion(
                    earlier,
                    list.last(),
                ));
            } else {
                assert(kept[i] == earlier[i] && kept[j] == earlier[j]);
            }
        }
    }
}

/// Hidden rows never show for an empty query.
pub proof fn law_hidden_rows_need_a_query(
    list: Seq<SuggestionView>,
    fuzzy: bool,
)
    requires
        forall|i: int| 0 <= i < list.len() ==> (#[trigger] list[i]).name.len() > 0,
    ensures
        forall|i: int|
            0 <= i < matching_rows(list, Seq::empty(), fuzzy).len() ==> !(#[trigger] matching_rows(
                list,
                Seq::empty(),
                fuzzy,
            )[i]).hidden,
    decreases list.len(),
{
    if list.len() > 0 {
        assert forall|i: int| 0 <= i < list.drop_last().len() implies (#[trigger] list.drop_last()[i]).name.len() > 0 by {
            assert(list.drop_last()[i] == list[i]);
        }
        law_hidden_rows_need_a_query(list.drop_last(), fuzzy);
        let row = list.last();
        assert(list[list.len() - 1].name.len() > 0);
        assert(lowered(row.name).len() == row.name.len());
        assert(lowered(Seq::<char>::empty()).len() == 0);
    }
}

} // verus!
