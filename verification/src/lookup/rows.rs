//! The collections of rows that a context offers: subcommands, options,
//! short-option chains, additional suggestions and commands.
use std::sync::Arc;
use vstd::prelude::*;

use super::candidates::{
    adds_space, arg_hints, args_hint, collect_named, first_name, item_rows, item_views, places,
    should_add_space, shown_name, sort_by_name, sorted_order, Asking, ItemView, NamedItem,
};
use super::options::{
    first_is_mandatory, needs_value, options_are_equal, share_name, short_name, short_option_name,
    DirectivesView,
};
use crate::ir::{ArgSpec, OptionSpec, ParserDirectives, Repeatable, Spec, SuggestionSeed};
use crate::json::Json;
use crate::registry::{names_with_exact, plain_pairs, Registry};
use crate::runtime::{
    new_row, priority_or_default, rows, Suggestion, SuggestionView,
};
use crate::text::{
    begins_with, chars_of, concat, holds_text, is_at, joined, opt_text, same, share, text_range,
    texts,
};

verus! {

// ---------------------------------------------------------------------------
// Subcommands
// ---------------------------------------------------------------------------
/// What the row of a subcommand is made from.
pub open spec fn spec_item(spec: Spec) -> ItemView {
    ItemView {
        names: spec.names@,
        description: spec.description@,
        hint: joined(arg_hints(spec.args@), " "@),
        meta: spec.meta,
        add_space: match spec.meta.should_add_space {
            Some(add) => add,
            None => adds_space(spec.args@, spec.requires_subcommand, spec.subcommands@.len() > 0),
        },
        separator: opt_text(spec.meta.separator_to_add),
        requires_arg: needs_value(spec.args@),
        priority: spec.meta.priority,
    }
}

/// The first names of the specs.
pub open spec fn spec_keys(list: Seq<Arc<Spec>>) -> Seq<Seq<char>> {
    Seq::new(list.len(), |i: int| first_name(texts(list[i].names@)))
}

/// The specs, sorted by first name, as items.
pub open spec fn spec_items(list: Seq<Arc<Spec>>) -> Seq<ItemView> {
    let order = sorted_order(spec_keys(list), list.len() as int);
    Seq::new(list.len(), |i: int| spec_item(*list[order[i]]))
}

/// The rows of the subcommands.
pub open spec fn subcommand_rows(list: Seq<Arc<Spec>>, asking: Asking) -> Seq<SuggestionView> {
    item_rows(spec_items(list), Asking { kind: "subcommand"@, ..asking })
}

/// The first of a list of names.
pub fn first_name_of(names: &[String]) -> (name: String)
    ensures
        name@ == first_name(texts(names@)),
{
    if names.len() > 0 {
        proof {
            assert(texts(names@)[0] == names@[0]@);
        }
        names[0].clone()
    } else {
        String::new()
    }
}

/// Computes [`subcommand_rows`].
pub fn collect_subcommands(
    list: &Vec<Arc<Spec>>,
    query: &str,
    search_term: &str,
    fuzzy: bool,
    prefer_verbose: bool,
) -> (out: Vec<Suggestion>)
    ensures
        rows(out@) == subcommand_rows(
            list@,
            (Asking {
                kind: Seq::empty(),
                query: query@,
                search_term: search_term@,
                fuzzy,
                prefer_verbose,
            }),
        ),
{
    let mut keys: Vec<String> = Vec::new();
    let mut i: usize = 0;
    while i < list.len()
        invariant
            i <= list@.len(),
            texts(keys@) == spec_keys(list@).take(i as int),
            keys@.len() == i,
        decreases list@.len() - i,
    {
        let ghost had = keys@;
        keys.push(first_name_of(&list[i].names));
        proof {
            assert(texts(keys@) =~= texts(had).push(spec_keys(list@)[i as int]));
            assert(spec_keys(list@).take(i + 1) =~= spec_keys(list@).take(i as int).push(
                spec_keys(list@)[i as int],
            ));
        }
        i += 1;
    }
    proof {
        assert(spec_keys(list@).take(list@.len() as int) =~= spec_keys(list@));
    }
    let order = sort_by_name(&keys);
    let mut items: Vec<NamedItem<'_>> = Vec::new();
    let mut j: usize = 0;
    while j < order.len()
        invariant
            j <= order@.len(),
            order@.len() == list@.len(),
            places(order@) == sorted_order(spec_keys(list@), list@.len() as int),
            forall|k: int| 0 <= k < order@.len() ==> (#[trigger] order@[k]) < list@.len(),
            items@.len() == j,
            forall|k: int| 0 <= k < j ==> (#[trigger] items@[k])@ == spec_items(list@)[k],
        decreases order@.len() - j,
    {
        let spec: &Spec = &list[order[j]];
        proof {
            assert(places(order@)[j as int] == order@[j as int]);
        }
        let add_space = match spec.meta.should_add_space {
            Some(add) => add,
            None => should_add_space(
                &spec.args,
                spec.requires_subcommand,
                spec.subcommands.len() > 0,
            ),
        };
        items.push(
            NamedItem {
                names: &spec.names,
                description: spec.description.as_str(),
                hint: args_hint(&spec.args),
                meta: &spec.meta,
                add_space,
                separator: spec.meta.separator_to_add.clone(),
                requires_arg: first_is_mandatory(&spec.args),
                priority: spec.meta.priority,
            },
        );
        j += 1;
    }
    proof {
        assert(item_views(items@) =~= spec_items(list@));
    }
    collect_named(&items, "subcommand", query, search_term, fuzzy, prefer_verbose)
}

// ---------------------------------------------------------------------------
// Additional suggestions
// ---------------------------------------------------------------------------
/// What the row of a static suggestion is made from.
pub open spec fn seed_item(seed: SuggestionSeed) -> ItemView {
    ItemView {
        names: seed.names@,
        description: seed.description@,
        hint: seed.args_hint@,
        meta: seed.meta,
        add_space: seed.meta.should_add_space == Some(true),
        separator: opt_text(seed.meta.separator_to_add),
        requires_arg: false,
        priority: seed.meta.priority,
    }
}

/// The first names of the static suggestions.
pub open spec fn seed_keys(list: Seq<SuggestionSeed>) -> Seq<Seq<char>> {
    Seq::new(list.len(), |i: int| first_name(texts(list[i].names@)))
}

/// The static suggestions, sorted by first name, as items.
pub open spec fn seed_items(list: Seq<SuggestionSeed>) -> Seq<ItemView> {
    let order = sorted_order(seed_keys(list), list.len() as int);
    Seq::new(list.len(), |i: int| seed_item(list[order[i]]))
}

/// The icon of suggestions without a type or an icon of their own.
pub open spec fn shortcut_icon() -> Seq<char> {
    "fig://template?color=628dad&badge=➡️"@
}

/// Whether a static suggestion with neither type nor icon has the name.
pub open spec fn is_untyped(list: Seq<SuggestionSeed>, name: Seq<char>) -> bool {
    exists|i: int|
        0 <= i < list.len() && (#[trigger] list[i]).meta.suggestion_type is None
            && list[i].meta.icon is None && texts(list[i].names@).contains(name)
}

/// The row of an additional suggestion with what its collection adds: behind
/// an open option chain it extends the chain, and without type and icon it
/// gets the icon of shortcuts.
pub open spec fn additional_row(
    list: Seq<SuggestionSeed>,
    row: SuggestionView,
    open_chain: bool,
) -> SuggestionView {
    SuggestionView {
        query_term: if open_chain {
            Some(Seq::empty())
        } else {
            row.query_term
        },
        icon: if row.icon is None && is_untyped(list, row.name) {
            Some(shortcut_icon())
        } else {
            row.icon
        },
        ..row
    }
}

/// The rows of the additional suggestions. Behind an open option chain nothing
/// has been typed for them.
pub open spec fn additional_rows(
    list: Seq<SuggestionSeed>,
    asking: Asking,
    open_chain: bool,
) -> Seq<SuggestionView> {
    let collected = item_rows(
        seed_items(list),
        Asking {
            kind: "arg"@,
            query: if open_chain {
                Seq::empty()
            } else {
                asking.query
            },
            search_term: if open_chain {
                Seq::empty()
            } else {
                asking.search_term
            },
            ..asking
        },
    );
    Seq::new(collected.len(), |i: int| additional_row(list, collected[i], open_chain))
}

fn untyped(list: &Vec<SuggestionSeed>, name: &str) -> (yes: bool)
    ensures
        yes == is_untyped(list@, name@),
{
    let mut i: usize = 0;
    while i < list.len()
        invariant
            i <= list@.len(),
            forall|k: int|
                0 <= k < i ==> !((#[trigger] list@[k]).meta.suggestion_type is None
                    && list@[k].meta.icon is None && texts(list@[k].names@).contains(name@)),
        decreases list@.len() - i,
    {
        let seed = &list[i];
        if seed.meta.suggestion_type.is_none() && seed.meta.icon.is_none() && holds_text(
            &seed.names,
            name,
        ) {
            return true;
        }
        i += 1;
    }
    false
}

/// Computes [`additional_rows`].
pub fn collect_additional(
    list: &Vec<SuggestionSeed>,
    query: &str,
    search_term: &str,
    fuzzy: bool,
    prefer_verbose: bool,
    open_chain: bool,
) -> (out: Vec<Suggestion>)
    ensures
        rows(out@) == additional_rows(
            list@,
            (Asking {
                kind: Seq::empty(),
                query: query@,
                search_term: search_term@,
                fuzzy,
                prefer_verbose,
            }),
            open_chain,
        ),
{
    let mut keys: Vec<String> = Vec::new();
    let mut i: usize = 0;
    while i < list.len()
        invariant
            i <= list@.len(),
            texts(keys@) == seed_keys(list@).take(i as int),
            keys@.len() == i,
        decreases list@.len() - i,
    {
        let ghost had = keys@;
        keys.push(first_name_of(&list[i].names));
        proof {
            assert(texts(keys@) =~= texts(had).push(seed_keys(list@)[i as int]));
            assert(seed_keys(list@).take(i + 1) =~= seed_keys(list@).take(i as int).push(
                seed_keys(list@)[i as int],
            ));
        }
        i += 1;
    }
    proof {
        assert(seed_keys(list@).take(list@.len() as int) =~= seed_keys(list@));
    }
    let order = sort_by_name(&keys);
    let mut items: Vec<NamedItem<'_>> = Vec::new();
    let mut j: usize = 0;
    while j < order.len()
        invariant
            j <= order@.len(),
            order@.len() == list@.len(),
            places(order@) == sorted_order(seed_keys(list@), list@.len() as int),
            forall|k: int| 0 <= k < order@.len() ==> (#[trigger] order@[k]) < list@.len(),
            items@.len() == j,
            forall|k: int| 0 <= k < j ==> (#[trigger] items@[k])@ == seed_items(list@)[k],
        decreases order@.len() - j,
    {
        let seed = &list[order[j]];
        proof {
            assert(places(order@)[j as int] == order@[j as int]);
        }
        items.push(
            NamedItem {
                names: &seed.names,
                description: seed.description.as_str(),
                hint: seed.args_hint.clone(),
                meta: &seed.meta,
                add_space: seed.meta.should_add_space == Some(true),
                separator: seed.meta.separator_to_add.clone(),
                requires_arg: false,
                priority: seed.meta.priority,
            },
        );
        j += 1;
    }
    proof {
        assert(item_views(items@) =~= seed_items(list@));
    }
    let (row_query, row_term) = if open_chain {
        ("", "")
    } else {
        (query, search_term)
    };
    proof {
        reveal_strlit("");
        assert(""@ =~= Seq::<char>::empty());
    }
    let collected = collect_named(&items, "arg", row_query, row_term, fuzzy, prefer_verbose);
    let mut out: Vec<Suggestion> = Vec::new();
    let mut k: usize = 0;
    let ghost stated = additional_rows(
        list@,
        (Asking {
            kind: Seq::empty(),
            query: query@,
            search_term: search_term@,
            fuzzy,
            prefer_verbose,
        }),
        open_chain,
    );
    proof {
        assert(stated.len() == collected@.len());
    }
    while k < collected.len()
        invariant
            k <= collected@.len(),
            stated.len() == collected@.len(),
            forall|m: int|
                0 <= m < collected@.len() ==> #[trigger] stated[m] == additional_row(
                    list@,
                    collected@[m]@,
                    open_chain,
                ),
            rows(out@) == stated.take(k as int),
        decreases collected@.len() - k,
    {
        let row = collected[k].clone();
        let icon: Option<String> = if row.icon.is_none() && untyped(list, &row.name) {
            Some("fig://template?color=628dad&badge=➡️".to_owned())
        } else {
            row.icon
        };
        let query_term: Option<String> = if open_chain {
            Some(String::new())
        } else {
            row.query_term
        };
        let ghost had = out@;
        let finished = Suggestion { icon, query_term, ..row };
        proof {
            assert(finished@ =~= stated[k as int]);
        }
        out.push(finished);
        proof {
            assert(rows(out@) =~= rows(had).push(finished@));
            assert(stated.take(k + 1) =~= stated.take(k as int).push(stated[k as int]));
        }
        k += 1;
    }
    proof {
        assert(stated.take(stated.len() as int) =~= stated);
    }
    out
}

// ---------------------------------------------------------------------------
// Options
// ---------------------------------------------------------------------------
/// How often an option may be passed; absent means any number of times.
pub open spec fn repetition_limit(option: OptionSpec) -> Option<int> {
    match option.is_repeatable {
        Some(Repeatable::Flag(true)) => None,
        Some(Repeatable::Count(n)) => Some(
            if n == 0 {
                1
            } else {
                n as int
            },
        ),
        _ => Some(1),
    }
}

/// How often an option was passed, under any of its names.
pub open spec fn times_passed(option: OptionSpec, passed: Seq<Arc<OptionSpec>>) -> int
    decreases passed.len(),
{
    if passed.len() == 0 {
        0
    } else {
        times_passed(option, passed.drop_last()) + if share_name(option, *passed.last()) {
            1int
        } else {
            0int
        }
    }
}

/// Whether a passed option excludes this one.
pub open spec fn is_excluded(option: OptionSpec, passed: Seq<Arc<OptionSpec>>) -> bool {
    exists|i: int| 0 <= i < passed.len() && excludes(*#[trigger] passed[i], option)
}

/// Whether an option excludes another.
pub open spec fn excludes(passed: OptionSpec, option: OptionSpec) -> bool {
    exists|i: int|
        0 <= i < passed.exclusive_on@.len() && texts(option.names@).contains(
            #[trigger] texts(passed.exclusive_on@)[i],
        )
}

/// Whether an option can still be passed.
pub open spec fn is_offered(option: OptionSpec, passed: Seq<Arc<OptionSpec>>) -> bool {
    !is_excluded(option, passed) && (repetition_limit(option) matches Some(limit)
        ==> times_passed(option, passed) < limit)
}

/// Whether a passed option depends on a name that no passed option has.
pub open spec fn is_unmet(name: Seq<char>, passed: Seq<Arc<OptionSpec>>) -> bool {
    &&& exists|i: int|
        0 <= i < passed.len() && texts((#[trigger] passed[i]).depends_on@).contains(name)
    &&& forall|i: int|
        0 <= i < passed.len() ==> !texts((#[trigger] passed[i]).names@).contains(name)
}

/// Whether a passed option waits for this one.
pub open spec fn is_awaited(option: OptionSpec, passed: Seq<Arc<OptionSpec>>) -> bool {
    exists|i: int| 0 <= i < option.names@.len() && is_unmet(#[trigger] texts(option.names@)[i], passed)
}

/// The priority of an option's row: awaited options are promoted.
pub open spec fn row_priority(option: OptionSpec, passed: Seq<Arc<OptionSpec>>) -> Option<i64> {
    if is_awaited(option, passed) {
        Some(75)
    } else {
        option.meta.priority
    }
}

/// Computes [`times_passed`].
pub fn option_repetition_count(option: &OptionSpec, passed: &[Arc<OptionSpec>]) -> (count: usize)
    ensures
        count == times_passed(*option, passed@),
        count <= passed@.len(),
{
    let mut count: usize = 0;
    let mut i: usize = 0;
    while i < passed.len()
        invariant
            i <= passed@.len(),
            count <= i,
            count == times_passed(*option, passed@.take(i as int)),
        decreases passed@.len() - i,
    {
        proof {
            assert(passed@.take(i + 1).drop_last() =~= passed@.take(i as int));
            assert(passed@.take(i + 1).last() == passed@[i as int]);
        }
        if options_are_equal(option, &passed[i]) {
            count += 1;
        }
        i += 1;
    }
    proof {
        assert(passed@.take(passed@.len() as int) =~= passed@);
    }
    count
}

fn does_exclude(passed: &OptionSpec, option: &OptionSpec) -> (yes: bool)
    ensures
        yes == excludes(*passed, *option),
{
    let mut i: usize = 0;
    while i < passed.exclusive_on.len()
        invariant
            i <= passed.exclusive_on@.len(),
            forall|k: int|
                0 <= k < i ==> !texts(option.names@).contains(
                    #[trigger] texts(passed.exclusive_on@)[k],
                ),
        decreases passed.exclusive_on@.len() - i,
    {
        if holds_text(&option.names, &passed.exclusive_on[i]) {
            proof {
                assert(texts(option.names@).contains(texts(passed.exclusive_on@)[i as int]));
            }
            return true;
        }
        i += 1;
    }
    false
}

/// Computes [`is_excluded`].
pub fn option_is_excluded(option: &OptionSpec, passed: &[Arc<OptionSpec>]) -> (yes: bool)
    ensures
        yes == is_excluded(*option, passed@),
{
    let mut i: usize = 0;
    while i < passed.len()
        invariant
            i <= passed@.len(),
            forall|k: int| 0 <= k < i ==> !excludes(*#[trigger] passed@[k], *option),
        decreases passed@.len() - i,
    {
        if does_exclude(&passed[i], option) {
            return true;
        }
        i += 1;
    }
    false
}

/// Computes [`repetition_limit`].
pub fn option_repetition_limit(option: &OptionSpec) -> (limit: Option<i64>)
    ensures
        match limit {
            Some(n) => repetition_limit(*option) == Some(n as int),
            None => repetition_limit(*option) is None,
        },
{
    match option.is_repeatable {
        Some(Repeatable::Flag(true)) => None,
        Some(Repeatable::Count(n)) => Some(
            if n == 0 {
                1
            } else {
                n
            },
        ),
        _ => Some(1),
    }
}

/// Computes [`is_offered`].
pub fn can_be_passed(option: &OptionSpec, passed: &[Arc<OptionSpec>]) -> (yes: bool)
    ensures
        yes == is_offered(*option, passed@),
{
    if option_is_excluded(option, passed) {
        return false;
    }
    match option_repetition_limit(option) {
        None => true,
        Some(limit) => {
            let count = option_repetition_count(option, passed);
            (count as i128) < (limit as i128)
        },
    }
}

fn unmet(name: &str, passed: &[Arc<OptionSpec>]) -> (yes: bool)
    ensures
        yes == is_unmet(name@, passed@),
{
    let mut wanted = false;
    let mut i: usize = 0;
    while i < passed.len()
        invariant
            i <= passed@.len(),
            wanted == exists|k: int|
                0 <= k < i && texts((#[trigger] passed@[k]).depends_on@).contains(name@),
            forall|k: int| 0 <= k < i ==> !texts((#[trigger] passed@[k]).names@).contains(name@),
        decreases passed@.len() - i,
    {
        if holds_text(&passed[i].names, name) {
            proof {
                assert(texts(passed@[i as int].names@).contains(name@));
            }
            return false;
        }
        if holds_text(&passed[i].depends_on, name) {
            wanted = true;
            proof {
                assert(texts(passed@[i as int].depends_on@).contains(name@));
            }
        }
        i += 1;
    }
    wanted
}

/// Computes [`row_priority`].
pub fn option_priority(option: &OptionSpec, passed: &[Arc<OptionSpec>]) -> (priority: Option<i64>)
    ensures
        priority == row_priority(*option, passed@),
{
    let mut i: usize = 0;
    while i < option.names.len()
        invariant
            i <= option.names@.len(),
            forall|k: int|
                0 <= k < i ==> !is_unmet(#[trigger] texts(option.names@)[k], passed@),
        decreases option.names@.len() - i,
    {
        proof {
            assert(texts(option.names@)[i as int] == option.names@[i as int]@);
        }
        if unmet(&option.names[i], passed) {
            return Some(75);
        }
        i += 1;
    }
    option.meta.priority
}

/// Whether an option's first argument may be left out.
pub open spec fn first_optional(args: Seq<Arc<ArgSpec>>) -> bool {
    args.len() > 0 && args[0].is_optional
}

/// The separator that an accepted option brings along: its own; the one that it
/// requires, by name or as the command has it; or `=`.
pub open spec fn separator_for(option: OptionSpec, directives: DirectivesView) -> Option<Seq<char>> {
    if let Some(own) = option.meta.separator_to_add {
        Some(own@)
    } else if let Some(Json::Text(required)) = option.requires_separator {
        Some(required@)
    } else if option.requires_separator == Some(Json::Bool(true)) && !first_optional(option.args@) {
        match directives.separators {
            Some(list) => if list.len() > 0 {
                Some(list[0])
            } else {
                None
            },
            None => Some("="@),
        }
    } else if option.requires_equals && !first_optional(option.args@) {
        Some("="@)
    } else {
        None
    }
}

/// Computes [`separator_for`].
pub fn option_separator(option: &OptionSpec, directives: &ParserDirectives) -> (separator: Option<
    String,
>)
    ensures
        opt_text(separator) == separator_for(*option, directives@),
{
    if let Some(own) = &option.meta.separator_to_add {
        return Some(own.clone());
    }
    let optional = option.args.len() > 0 && option.args[0].is_optional;
    match &option.requires_separator {
        Some(Json::Text(required)) => {
            return Some(required.clone());
        },
        Some(Json::Bool(flag)) => {
            if *flag && !optional {
                return match &directives.option_arg_separators {
                    Some(list) => {
                        if list.len() > 0 {
                            proof {
                                assert(texts(list@)[0] == list@[0]@);
                            }
                            Some(list[0].clone())
                        } else {
                            None
                        }
                    },
                    None => Some("=".to_owned()),
                };
            }
        },
        _ => {},
    }
    if option.requires_equals && !optional {
        return Some("=".to_owned());
    }
    None
}

/// Whether a space follows an accepted option.
pub open spec fn option_adds_space(option: OptionSpec) -> bool {
    match option.meta.should_add_space {
        Some(add) => add,
        None => adds_space(option.args@, option.requires_subcommand, false),
    }
}

fn adds_space_after(option: &OptionSpec) -> (yes: bool)
    ensures
        yes == option_adds_space(*option),
{
    match option.meta.should_add_space {
        Some(add) => add,
        None => should_add_space(&option.args, option.requires_subcommand, false),
    }
}

/// What the row of an option is made from.
pub open spec fn option_item(
    option: OptionSpec,
    passed: Seq<Arc<OptionSpec>>,
    directives: DirectivesView,
) -> ItemView {
    ItemView {
        names: option.names@,
        description: option.description@,
        hint: joined(arg_hints(option.args@), " "@),
        meta: option.meta,
        add_space: option_adds_space(option),
        separator: separator_for(option, directives),
        requires_arg: needs_value(option.args@),
        priority: row_priority(option, passed),
    }
}

/// The options that can still be passed.
pub open spec fn offered_options(
    list: Seq<Arc<OptionSpec>>,
    passed: Seq<Arc<OptionSpec>>,
) -> Seq<Arc<OptionSpec>>
    decreases list.len(),
{
    if list.len() == 0 {
        Seq::empty()
    } else if is_offered(*list.last(), passed) {
        offered_options(list.drop_last(), passed).push(list.last())
    } else {
        offered_options(list.drop_last(), passed)
    }
}

/// The first names of the options.
pub open spec fn option_keys(list: Seq<Arc<OptionSpec>>) -> Seq<Seq<char>> {
    Seq::new(list.len(), |i: int| first_name(texts(list[i].names@)))
}

/// The options that can still be passed, sorted by first name, as items.
pub open spec fn option_items(
    list: Seq<Arc<OptionSpec>>,
    passed: Seq<Arc<OptionSpec>>,
    directives: DirectivesView,
) -> Seq<ItemView> {
    let offered = offered_options(list, passed);
    let order = sorted_order(option_keys(offered), offered.len() as int);
    Seq::new(offered.len(), |i: int| option_item(*offered[order[i]], passed, directives))
}

/// The rows of the options in force.
pub open spec fn option_rows(
    list: Seq<Arc<OptionSpec>>,
    passed: Seq<Arc<OptionSpec>>,
    directives: DirectivesView,
    asking: Asking,
) -> Seq<SuggestionView> {
    item_rows(
        option_items(list, passed, directives),
        Asking { kind: "option"@, ..asking },
    )
}

fn gather_offered(list: &[Arc<OptionSpec>], passed: &[Arc<OptionSpec>]) -> (out: Vec<
    Arc<OptionSpec>,
>)
    ensures
        out@ == offered_options(list@, passed@),
{
    let mut out: Vec<Arc<OptionSpec>> = Vec::new();
    let mut i: usize = 0;
    while i < list.len()
        invariant
            i <= list@.len(),
            out@ == offered_options(list@.take(i as int), passed@),
        decreases list@.len() - i,
    {
        proof {
            assert(list@.take(i + 1).drop_last() =~= list@.take(i as int));
            assert(list@.take(i + 1).last() == list@[i as int]);
        }
        if can_be_passed(&list[i], passed) {
            out.push(share(&list[i]));
        }
        i += 1;
    }
    proof {
        assert(list@.take(list@.len() as int) =~= list@);
    }
    out
}

/// Computes [`option_rows`].
pub fn collect_option_suggestions(
    list: &[Arc<OptionSpec>],
    passed: &[Arc<OptionSpec>],
    query: &str,
    search_term: &str,
    fuzzy: bool,
    prefer_verbose: bool,
    directives: &ParserDirectives,
) -> (out: Vec<Suggestion>)
    ensures
        rows(out@) == option_rows(
            list@,
            passed@,
            directives@,
            (Asking {
                kind: Seq::empty(),
                query: query@,
                search_term: search_term@,
                fuzzy,
                prefer_verbose,
            }),
        ),
{
    let offered = gather_offered(list, passed);
    let mut keys: Vec<String> = Vec::new();
    let mut i: usize = 0;
    while i < offered.len()
        invariant
            i <= offered@.len(),
            texts(keys@) == option_keys(offered@).take(i as int),
            keys@.len() == i,
        decreases offered@.len() - i,
    {
        let ghost had = keys@;
        keys.push(first_name_of(&offered[i].names));
        proof {
            assert(texts(keys@) =~= texts(had).push(option_keys(offered@)[i as int]));
            assert(option_keys(offered@).take(i + 1) =~= option_keys(offered@).take(i as int).push(
                option_keys(offered@)[i as int],
            ));
        }
        i += 1;
    }
    proof {
        assert(option_keys(offered@).take(offered@.len() as int) =~= option_keys(offered@));
    }
    let order = sort_by_name(&keys);
    let mut items: Vec<NamedItem<'_>> = Vec::new();
    let mut j: usize = 0;
    while j < order.len()
        invariant
            j <= order@.len(),
            order@.len() == offered@.len(),
            offered@ == offered_options(list@, passed@),
            places(order@) == sorted_order(option_keys(offered@), offered@.len() as int),
            forall|k: int| 0 <= k < order@.len() ==> (#[trigger] order@[k]) < offered@.len(),
            items@.len() == j,
            forall|k: int|
                0 <= k < j ==> (#[trigger] items@[k])@ == option_items(
                    list@,
                    passed@,
                    directives@,
                )[k],
        decreases order@.len() - j,
    {
        let option: &OptionSpec = &offered[order[j]];
        proof {
            assert(places(order@)[j as int] == order@[j as int]);
        }
        items.push(
            NamedItem {
                names: &option.names,
                description: option.description.as_str(),
                hint: args_hint(&option.args),
                meta: &option.meta,
                add_space: adds_space_after(option),
                separator: option_separator(option, directives),
                requires_arg: first_is_mandatory(&option.args),
                priority: option_priority(option, passed),
            },
        );
        j += 1;
    }
    proof {
        assert(item_views(items@) =~= option_items(list@, passed@, directives@));
    }
    collect_named(&items, "option", query, search_term, fuzzy, prefer_verbose)
}

// ---------------------------------------------------------------------------
// Short-option chains
// ---------------------------------------------------------------------------
/// The spellings with the short one replaced by the chain typed so far.
pub open spec fn with_chain(
    names: Seq<Seq<char>>,
    short: Seq<char>,
    prefix: Seq<char>,
) -> Seq<Seq<char>> {
    Seq::new(
        names.len(),
        |i: int|
            if names[i] == short {
                prefix
            } else {
                names[i]
            },
    )
}

/// The row of one option behind an open chain. The last option of the chain is
/// shown as the chain; every other short option extends it by its letter, and
/// none does where the last one needs a value.
pub open spec fn chain_row(
    list: Seq<Arc<OptionSpec>>,
    i: int,
    current: int,
    prefix: Seq<char>,
    passed: Seq<Arc<OptionSpec>>,
    directives: DirectivesView,
) -> Option<SuggestionView> {
    let option = *list[i];
    let is_current = i == current;
    let names = texts(option.names@);
    match short_name(names, 0) {
        None => None,
        Some(short) => if !is_offered(option, passed) || option.meta.hidden || (needs_value(
            list[current].args@,
        ) && !is_current) {
            None
        } else {
            let name = if is_current {
                prefix
            } else {
                prefix + short.skip(1)
            };
            Some(
                SuggestionView {
                    args_hint: joined(arg_hints(option.args@), " "@),
                    insert_value: if is_current {
                        opt_text(option.meta.insert_value)
                    } else {
                        Some(name)
                    },
                    display_name: if is_current {
                        shown_name(
                            opt_text(option.meta.display_name),
                            with_chain(names, short, prefix),
                        )
                    } else {
                        None
                    },
                    separator_to_add: separator_for(option, directives),
                    should_add_space: option_adds_space(option),
                    hidden: false,
                    priority: priority_or_default(row_priority(option, passed)),
                    icon: opt_text(option.meta.icon),
                    primary_name: Some(name),
                    is_dangerous: option.meta.is_dangerous,
                    original_type: opt_text(option.meta.original_type),
                    query_term: Some(prefix),
                    requires_arg: needs_value(option.args@),
                    ..new_row(
                        name,
                        option.description@,
                        super::candidates::kind_of(option.meta.suggestion_type, "option"@),
                    )
                },
            )
        },
    }
}

/// The rows of the first `n` options behind an open chain.
pub open spec fn chain_rows(
    list: Seq<Arc<OptionSpec>>,
    n: int,
    current: int,
    prefix: Seq<char>,
    passed: Seq<Arc<OptionSpec>>,
    directives: DirectivesView,
) -> Seq<SuggestionView>
    decreases n,
{
    if n <= 0 {
        Seq::empty()
    } else {
        let earlier = chain_rows(list, n - 1, current, prefix, passed, directives);
        match chain_row(list, n - 1, current, prefix, passed, directives) {
            Some(row) => earlier.push(row),
            None => earlier,
        }
    }
}

fn replace_short(names: &[String], short: &str, prefix: &str) -> (out: Vec<String>)
    ensures
        texts(out@) == with_chain(texts(names@), short@, prefix@),
{
    let mut out: Vec<String> = Vec::new();
    let ghost stated = with_chain(texts(names@), short@, prefix@);
    let mut i: usize = 0;
    while i < names.len()
        invariant
            i <= names@.len(),
            stated == with_chain(texts(names@), short@, prefix@),
            texts(out@) == stated.take(i as int),
        decreases names@.len() - i,
    {
        let ghost had = out@;
        if same(&names[i], short) {
            out.push(prefix.to_owned());
        } else {
            out.push(names[i].clone());
        }
        proof {
            assert(texts(out@) =~= texts(had).push(stated[i as int]));
            assert(stated.take(i + 1) =~= stated.take(i as int).push(stated[i as int]));
        }
        i += 1;
    }
    proof {
        assert(stated.take(stated.len() as int) =~= stated);
    }
    out
}

/// Computes [`chain_row`].
fn option_chain_row(
    list: &[Arc<OptionSpec>],
    i: usize,
    current: usize,
    prefix: &str,
    passed: &[Arc<OptionSpec>],
    directives: &ParserDirectives,
) -> (row: Option<Suggestion>)
    requires
        i < list@.len(),
        current < list@.len(),
    ensures
        match row {
            Some(row) => chain_row(
                list@,
                i as int,
                current as int,
                prefix@,
                passed@,
                directives@,
            ) == Some(row@),
            None => chain_row(
                list@,
                i as int,
                current as int,
                prefix@,
                passed@,
                directives@,
            ) is None,
        },
{
    let option = &list[i];
    let is_current = i == current;
    let short = match short_option_name(option) {
        None => {
            return None;
        },
        Some(short) => short,
    };
    if !can_be_passed(option, passed) || option.meta.hidden || (first_is_mandatory(
        &list[current].args,
    ) && !is_current) {
        return None;
    }
    let letters = chars_of(&short);
    proof {
        lemma_short_name(texts(option.names@), 0);
        assert(letters@.skip(1) =~= letters@.subrange(1, letters@.len() as int));
    }
    let name = if is_current {
        prefix.to_owned()
    } else {
        let tail = text_range(&letters, 1, letters.len());
        concat(prefix, &tail)
    };
    let display_name: Option<String> = if is_current {
        let spelled = replace_short(&option.names, &short, prefix);
        super::candidates::display_name_of(&option.meta.display_name, &spelled)
    } else {
        None
    };
    let insert_value: Option<String> = if is_current {
        option.meta.insert_value.clone()
    } else {
        Some(name.clone())
    };
    let kind = match &option.meta.suggestion_type {
        Some(own) => own.as_str(),
        None => "option",
    };
    let row = Suggestion::new(&name, &option.description, kind).with_args_hint(
        args_hint(&option.args),
    ).with_meta(
        insert_value,
        display_name,
        option_separator(option, directives),
        adds_space_after(option),
        false,
        option_priority(option, passed),
        option.meta.icon.clone(),
    ).with_primary_name(Some(name)).with_dangerous(option.meta.is_dangerous).with_original_type(
        option.meta.original_type.clone(),
    ).with_query_term(Some(prefix.to_owned()));
    let requires_arg = first_is_mandatory(&option.args);
    Some(Suggestion { requires_arg, ..row })
}

proof fn lemma_short_name(names: Seq<Seq<char>>, i: int)
    ensures
        short_name(names, i) matches Some(name) ==> name.len() == 2,
    decreases names.len() - i,
{
    if 0 <= i < names.len() {
        lemma_short_name(names, i + 1);
    }
}

/// The rows behind an open chain: with `-ab` typed, the last option is shown as
/// `-ab` and every other short option as `-ab` and its letter.
pub fn option_chain_suggestions(
    list: &[Arc<OptionSpec>],
    current: usize,
    prefix: &str,
    passed: &[Arc<OptionSpec>],
    directives: &ParserDirectives,
) -> (out: Vec<Suggestion>)
    requires
        current < list@.len(),
    ensures
        rows(out@) == chain_rows(
            list@,
            list@.len() as int,
            current as int,
            prefix@,
            passed@,
            directives@,
        ),
{
    let mut out: Vec<Suggestion> = Vec::new();
    let mut i: usize = 0;
    proof {
        assert(rows(out@) =~= Seq::<SuggestionView>::empty());
    }
    while i < list.len()
        invariant
            i <= list@.len(),
            current < list@.len(),
            rows(out@) == chain_rows(
                list@,
                i as int,
                current as int,
                prefix@,
                passed@,
                directives@,
            ),
        decreases list@.len() - i,
    {
        if let Some(row) = option_chain_row(list, i, current, prefix, passed, directives) {
            let ghost had = out@;
            out.push(row);
            proof {
                assert(rows(out@) =~= rows(had).push(row@));
            }
        }
        i += 1;
    }
    out
}

// ---------------------------------------------------------------------------
// Commands as arguments
// ---------------------------------------------------------------------------
/// Whether an argument takes the name of a command.
pub open spec fn wants_commands(arg: ArgSpec) -> bool {
    arg.is_command || arg.is_script || (arg.is_module matches Some(prefix) && prefix@.len() > 0)
}

/// Computes [`wants_commands`].
pub fn arg_suggests_commands(arg: &ArgSpec) -> (yes: bool)
    ensures
        yes == wants_commands(*arg),
{
    arg.is_command || arg.is_script || match &arg.is_module {
        Some(prefix) => !prefix.as_str().is_empty(),
        None => false,
    }
}

/// The row of a command name.
pub open spec fn command_row(name: Seq<char>) -> SuggestionView {
    SuggestionView { insert_value: Some(name), ..new_row(name, Seq::empty(), "arg"@) }
}

/// The rows of command names. With a prefix only names behind it are offered,
/// without the prefix.
pub open spec fn command_rows(names: Seq<Seq<char>>, prefix: Seq<char>) -> Seq<SuggestionView>
    decreases names.len(),
{
    if names.len() == 0 {
        Seq::empty()
    } else {
        let name = names.last();
        let earlier = command_rows(names.drop_last(), prefix);
        if begins_with(name, prefix) && (prefix.len() == 0 || name.len() > prefix.len()) {
            earlier.push(command_row(name.skip(prefix.len() as int)))
        } else {
            earlier
        }
    }
}

/// The prefix of the commands that an argument takes.
pub open spec fn module_prefix(arg: ArgSpec) -> Seq<char> {
    match arg.is_module {
        Some(prefix) => prefix@,
        None => Seq::empty(),
    }
}

/// The rows of the commands that an argument takes.
pub open spec fn commands_for(
    names: Seq<Seq<char>>,
    arg: ArgSpec,
    query: Seq<char>,
    fuzzy: bool,
) -> Seq<SuggestionView> {
    let prefix = module_prefix(arg);
    command_rows(names_with_exact(names, prefix + query, fuzzy), prefix)
}

fn command_rows_from(pairs: &Vec<(String, String)>, prefix: &str) -> (out: Vec<Suggestion>)
    ensures
        rows(out@) == command_rows(plain_pairs(pairs@), prefix@),
{
    let head = chars_of(prefix);
    let ghost names = plain_pairs(pairs@);
    let mut out: Vec<Suggestion> = Vec::new();
    let mut i: usize = 0;
    proof {
        assert(names.take(0) =~= Seq::<Seq<char>>::empty());
        assert(rows(out@) =~= Seq::<SuggestionView>::empty());
    }
    while i < pairs.len()
        invariant
            i <= pairs@.len(),
            names == plain_pairs(pairs@),
            head@ == prefix@,
            rows(out@) == command_rows(names.take(i as int), prefix@),
        decreases pairs@.len() - i,
    {
        let w = chars_of(&pairs[i].0);
        proof {
            assert(names.take(i + 1).drop_last() =~= names.take(i as int));
            assert(names.take(i + 1).last() == w@);
        }
        if is_at(&w, &head, 0) && (head.len() == 0 || w.len() > head.len()) {
            let n = w.len();
            let name = text_range(&w, head.len(), n);
            let ghost had = out@;
            proof {
                reveal_strlit("");
                assert(""@ =~= Seq::<char>::empty());
                assert(w@.skip(head@.len() as int) =~= w@.subrange(head@.len() as int, n as int));
            }
            let row = Suggestion::new(&name, "", "arg").with_insert_value(&name);
            out.push(row);
            proof {
                assert(rows(out@) =~= rows(had).push(row@));
            }
        }
        i += 1;
    }
    proof {
        assert(names.take(names.len() as int) =~= names);
    }
    out
}

/// Computes [`commands_for`] over the registry's command names.
pub fn command_arg_suggestions(registry: &Registry, arg: &ArgSpec, query: &str, fuzzy: bool) -> (out:
    Vec<Suggestion>)
    requires
        registry@.valid(),
    ensures
        rows(out@) == commands_for(registry@.names, *arg, query@, fuzzy),
{
    let prefix = match &arg.is_module {
        Some(prefix) => prefix.clone(),
        None => String::new(),
    };
    let needle = concat(&prefix, query);
    let pairs = registry.command_names_matching_including_exact_with(&needle, fuzzy);
    command_rows_from(&pairs, &prefix)
}

/// Computes [`command_rows`] of the registry's command names that match a
/// query, the query itself first.
pub fn first_token_rows(registry: &Registry, query: &str, fuzzy: bool) -> (out: Vec<Suggestion>)
    requires
        registry@.valid(),
    ensures
        rows(out@) == command_rows(names_with_exact(registry@.names, query@, fuzzy), Seq::empty()),
{
    let pairs = registry.command_names_matching_including_exact_with(query, fuzzy);
    proof {
        reveal_strlit("");
        assert(""@ =~= Seq::<char>::empty());
    }
    command_rows_from(&pairs, "")
}

/// An option that was passed as often as it may be, or that a passed option
/// excludes, gets no row; an option that can be passed any number of times and
/// is not excluded stays offered.
pub proof fn law_offered_options(option: OptionSpec, passed: Seq<Arc<OptionSpec>>)
    ensures
        is_excluded(option, passed) ==> !is_offered(option, passed),
        option.is_repeatable is None && times_passed(option, passed) >= 1 ==> !is_offered(
            option,
            passed,
        ),
        option.is_repeatable == Some(Repeatable::Flag(true)) && !is_excluded(option, passed)
            ==> is_offered(option, passed),
{
}

} // verus!
