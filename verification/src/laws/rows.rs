//! Laws of the rows for subcommands, options and further suggestions.
use std::sync::Arc;

use vstd::prelude::*;

use crate::ir::{ArgSpec, OptionSpec, Repeatable, Spec, SuggestionMeta, SuggestionSeed};
use crate::lookup::candidates::{
    adds_space, arg_hint, chosen_name, item_row, item_rows, law_matching_names_are_offered,
    law_sorting_is_stable, matching_rows, name_before, place_after, shown_name, sorted_order,
    Asking, ItemView,
};
use crate::lookup::options::{is_short, share_name, short_name, DirectivesView};
use crate::lookup::rows::{
    additional_rows, chain_row, chain_rows, command_rows, excludes, is_awaited, is_excluded,
    is_offered, is_unmet, offered_options, option_item, option_items, option_keys, option_rows,
    row_priority, seed_item, seed_items, seed_keys, separator_for, spec_item, spec_items, spec_keys,
    subcommand_rows, times_passed,
};
use crate::query::is_match;
use crate::runtime::SuggestionView;
use crate::text::{begins_with, holds_ignoring_case_spec, texts};

verus! {

proof fn lemma_every_key_has_a_place(keys: Seq<Seq<char>>, n: int, i: int)
    requires
        0 <= i < n <= keys.len(),
    ensures
        exists|p: int| 0 <= p < n && #[trigger] sorted_order(keys, n)[p] == i,
    decreases n,
{
    law_sorting_is_stable(keys, n - 1);
    law_sorting_is_stable(keys, n);
    let earlier = sorted_order(keys, n - 1);
    let order = sorted_order(keys, n);
    let k = place_after(earlier, keys, keys[n - 1], 0);
    lemma_place_inside(earlier, keys, keys[n - 1], 0);
    if i == n - 1 {
        assert(order[k] == i);
    } else {
        lemma_every_key_has_a_place(keys, n - 1, i);
        let p = choose|p: int| 0 <= p < n - 1 && #[trigger] earlier[p] == i;
        if p < k {
            assert(order[p] == i);
        } else {
            assert(order[p + 1] == i);
        }
    }
}

proof fn lemma_place_inside(order: Seq<int>, keys: Seq<Seq<char>>, key: Seq<char>, i: int)
    requires
        0 <= i <= order.len(),
    ensures
        i <= place_after(order, keys, key, i) <= order.len(),
    decreases order.len() - i,
{
    if i < order.len() {
        lemma_place_inside(order, keys, key, i + 1);
    }
}

/// The row at place `p` is the one that the item at place `k` gives.
spec fn comes_from(items: Seq<ItemView>, asking: Asking, p: int, k: int) -> bool {
    &&& 0 <= k < items.len()
    &&& 0 <= p < item_rows(items, asking).len()
    &&& item_row(items[k], asking) == Some(item_rows(items, asking)[p])
}

/// An item that has a row has it among the rows, and the rows keep the order of
/// their items.
proof fn lemma_item_rows(items: Seq<ItemView>, asking: Asking)
    ensures
        forall|k: int|
            0 <= k < items.len() && item_row(#[trigger] items[k], asking) is Some ==> exists|p: int|
                #[trigger] comes_from(items, asking, p, k),
        forall|p: int|
            0 <= p < item_rows(items, asking).len() ==> #[trigger] has_source(items, asking, p),
        item_rows(items, asking).len() <= items.len(),
    decreases items.len(),
{
    if items.len() > 0 {
        let rest = items.drop_last();
        lemma_item_rows(rest, asking);
        let earlier = item_rows(rest, asking);
        let out = item_rows(items, asking);
        assert forall|k: int|
            0 <= k < items.len() && item_row(#[trigger] items[k], asking) is Some implies exists|p: int|
            #[trigger] comes_from(items, asking, p, k) by {
            if k < rest.len() {
                assert(rest[k] == items[k]);
                let p = choose|p: int| #[trigger] comes_from(rest, asking, p, k);
                assert(out[p] == earlier[p]);
                assert(comes_from(items, asking, p, k));
            } else {
                assert(comes_from(items, asking, earlier.len() as int, k));
            }
        }
        assert forall|p: int| 0 <= p < out.len() implies #[trigger] has_source(items, asking, p) by {
            if p < earlier.len() {
                assert(has_source(rest, asking, p));
                let k = choose|k: int| #[trigger] comes_from(rest, asking, p, k);
                assert(rest[k] == items[k]);
                assert(out[p] == earlier[p]);
                assert(comes_from(items, asking, p, k));
            } else {
                assert(comes_from(items, asking, p, items.len() - 1));
            }
        }
    }
}

spec fn has_source(items: Seq<ItemView>, asking: Asking, p: int) -> bool {
    exists|k: int| #[trigger] comes_from(items, asking, p, k)
}

/// Two rows in their order stand for two items in theirs.
proof fn lemma_item_order(items: Seq<ItemView>, asking: Asking, p: int, q: int) -> (sources: (
    int,
    int,
))
    requires
        0 <= p < q < item_rows(items, asking).len(),
    ensures
        sources.0 < sources.1,
        comes_from(items, asking, p, sources.0),
        comes_from(items, asking, q, sources.1),
    decreases items.len(),
{
    let rest = items.drop_last();
    let earlier = item_rows(rest, asking);
    let out = item_rows(items, asking);
    if q < earlier.len() {
        let (i, j) = lemma_item_order(rest, asking, p, q);
        assert(rest[i] == items[i]);
        assert(rest[j] == items[j]);
        assert(out[p] == earlier[p]);
        assert(out[q] == earlier[q]);
        (i, j)
    } else {
        lemma_item_rows(rest, asking);
        assert(has_source(rest, asking, p));
        let i = choose|i: int| #[trigger] comes_from(rest, asking, p, i);
        assert(rest[i] == items[i]);
        assert(out[p] == earlier[p]);
        assert(comes_from(items, asking, q, items.len() - 1));
        (i, items.len() - 1)
    }
}

/// A plain entry is compared with the query as it was typed.
pub open spec fn is_plain_meta(meta: SuggestionMeta) -> bool {
    meta.get_query_term is None && meta.suggestion_type is None
}

/// Some name of the entry matches the query.
pub open spec fn has_matching_name(names: Seq<String>, query: Seq<char>, fuzzy: bool) -> bool {
    exists|j: int| 0 <= j < names.len() && is_match(#[trigger] texts(names)[j], query, fuzzy)
}

/// The row offers one of the names, under the first of them, with the description.
pub open spec fn offers(
    row: SuggestionView,
    names: Seq<String>,
    description: Seq<char>,
    query: Seq<char>,
    fuzzy: bool,
) -> bool {
    &&& texts(names).contains(row.name)
    &&& is_match(row.name, query, fuzzy)
    &&& row.primary_name == Some(texts(names)[0])
    &&& row.alias_names == texts(names)
    &&& row.description == description
}

proof fn lemma_item_offers(item: ItemView, asking: Asking)
    requires
        is_plain_meta(item.meta),
        !item.meta.hidden || holds_ignoring_case_spec(item.names, asking.query),
        has_matching_name(item.names, asking.query, asking.fuzzy),
        asking.kind != "shortcut"@,
    ensures
        item_row(item, asking) is Some,
        offers(
            item_row(item, asking)->Some_0,
            item.names,
            item.description,
            asking.query,
            asking.fuzzy,
        ),
        item_row(item, asking)->Some_0.kind == asking.kind,
{
    let names = texts(item.names);
    let prefer_long = asking.prefer_verbose && (asking.kind == "option"@ || asking.kind
        == "subcommand"@);
    law_matching_names_are_offered(
        names,
        crate::text::opt_text(item.meta.display_name),
        asking.query,
        asking.fuzzy,
        prefer_long,
    );
    let j = choose|j: int|
        0 <= j < item.names.len() && is_match(#[trigger] names[j], asking.query, asking.fuzzy);
    assert(is_match(names[j], asking.query, asking.fuzzy));
    let i = chosen_name(
        names,
        crate::text::opt_text(item.meta.display_name),
        asking.query,
        asking.fuzzy,
        prefer_long,
    )->Some_0;
    assert(names.contains(names[i]));
}

/// Every subcommand with a name that matches the query has a row, unless it is
/// hidden and none of its names is typed out.
pub proof fn law_matching_subcommands_have_rows(list: Seq<Arc<Spec>>, asking: Asking, k: int)
    requires
        0 <= k < list.len(),
        is_plain_meta(list[k].meta),
        !list[k].meta.hidden || holds_ignoring_case_spec(list[k].names@, asking.query),
        has_matching_name(list[k].names@, asking.query, asking.fuzzy),
    ensures
        exists|p: int|
            {
                &&& 0 <= p < subcommand_rows(list, asking).len()
                &&& offers(
                    #[trigger] subcommand_rows(list, asking)[p],
                    list[k].names@,
                    list[k].description@,
                    asking.query,
                    asking.fuzzy,
                )
                &&& subcommand_rows(list, asking)[p].kind == "subcommand"@
            },
{
    reveal_strlit("subcommand");
    reveal_strlit("shortcut");
    assert("subcommand"@.len() != "shortcut"@.len());
    let keys = spec_keys(list);
    let n = list.len() as int;
    law_sorting_is_stable(keys, n);
    lemma_every_key_has_a_place(keys, n, k);
    let order = sorted_order(keys, n);
    let i = choose|i: int| 0 <= i < n && #[trigger] order[i] == k;
    let items = spec_items(list);
    let asked = Asking { kind: "subcommand"@, ..asking };
    assert(items[i] == spec_item(*list[k]));
    lemma_item_offers(items[i], asked);
    lemma_item_rows(items, asked);
    let p = choose|p: int| #[trigger] comes_from(items, asked, p, i);
    assert(subcommand_rows(list, asking)[p] == item_rows(items, asked)[p]);
}

/// Every row for subcommands stands for one of them.
pub proof fn law_subcommand_rows_stand_for_subcommands(list: Seq<Arc<Spec>>, asking: Asking, p: int)
    requires
        0 <= p < subcommand_rows(list, asking).len(),
    ensures
        exists|k: int|
            0 <= k < list.len() && subcommand_rows(list, asking)[p].alias_names == texts(
                (#[trigger] list[k]).names@,
            ) && subcommand_rows(list, asking)[p].hidden == list[k].meta.hidden,
{
    let items = spec_items(list);
    let asked = Asking { kind: "subcommand"@, ..asking };
    lemma_item_rows(items, asked);
    assert(has_source(items, asked, p));
    let i = choose|i: int| #[trigger] comes_from(items, asked, p, i);
    law_sorting_is_stable(spec_keys(list), list.len() as int);
    let order = sorted_order(spec_keys(list), list.len() as int);
    assert(items[i] == spec_item(*list[order[i]]));
}

/// Rows for subcommands come in the order of the first names, regardless of the
/// case of their letters.
pub proof fn law_subcommand_rows_are_sorted(list: Seq<Arc<Spec>>, asking: Asking, p: int, q: int)
    requires
        0 <= p < q < subcommand_rows(list, asking).len(),
        forall|k: int| 0 <= k < list.len() ==> (#[trigger] list[k]).names@.len() > 0,
    ensures
        subcommand_rows(list, asking)[p].primary_name is Some,
        subcommand_rows(list, asking)[q].primary_name is Some,
        !name_before(
            subcommand_rows(list, asking)[q].primary_name->Some_0,
            subcommand_rows(list, asking)[p].primary_name->Some_0,
        ),
{
    let items = spec_items(list);
    let asked = Asking { kind: "subcommand"@, ..asking };
    let (i, j) = lemma_item_order(items, asked, p, q);
    let keys = spec_keys(list);
    law_sorting_is_stable(keys, list.len() as int);
    let order = sorted_order(keys, list.len() as int);
    assert(items[i] == spec_item(*list[order[i]]));
    assert(items[j] == spec_item(*list[order[j]]));
    assert(list[order[i]].names@.len() > 0);
    assert(list[order[j]].names@.len() > 0);
    crate::lookup::candidates::law_name_order(keys[order[i]], keys[order[j]], keys[order[j]]);
}

proof fn lemma_offered(list: Seq<Arc<OptionSpec>>, passed: Seq<Arc<OptionSpec>>)
    ensures
        forall|k: int|
            0 <= k < list.len() && is_offered(*(#[trigger] list[k]), passed) ==> offered_options(
                list,
                passed,
            ).contains(list[k]),
        forall|i: int|
            0 <= i < offered_options(list, passed).len() ==> is_offered(
                *(#[trigger] offered_options(list, passed)[i]),
                passed,
            ) && list.contains(offered_options(list, passed)[i]),
    decreases list.len(),
{
    if list.len() > 0 {
        let rest = list.drop_last();
        lemma_offered(rest, passed);
        let earlier = offered_options(rest, passed);
        let out = offered_options(list, passed);
        assert forall|k: int|
            0 <= k < list.len() && is_offered(*(#[trigger] list[k]), passed) implies out.contains(
            list[k],
        ) by {
            if k < rest.len() {
                assert(rest[k] == list[k]);
                let i = choose|i: int| 0 <= i < earlier.len() && earlier[i] == list[k];
                assert(out[i] == list[k]);
            } else {
                assert(out[earlier.len() as int] == list[k]);
            }
        }
        assert forall|i: int| 0 <= i < out.len() implies is_offered(*(#[trigger] out[i]), passed)
            && list.contains(out[i]) by {
            if i < earlier.len() {
                assert(out[i] == earlier[i]);
                let k = choose|k: int| 0 <= k < rest.len() && rest[k] == earlier[i];
                assert(list[k] == out[i]);
            } else {
                assert(list[list.len() - 1] == out[i]);
            }
        }
    }
}

/// Every option with a name that matches the query has a row, as long as it may
/// still be passed and is not hidden.
pub proof fn law_matching_options_have_rows(
    list: Seq<Arc<OptionSpec>>,
    passed: Seq<Arc<OptionSpec>>,
    directives: DirectivesView,
    asking: Asking,
    k: int,
)
    requires
        0 <= k < list.len(),
        is_offered(*list[k], passed),
        is_plain_meta(list[k].meta),
        !list[k].meta.hidden || holds_ignoring_case_spec(list[k].names@, asking.query),
        has_matching_name(list[k].names@, asking.query, asking.fuzzy),
    ensures
        exists|p: int|
            {
                &&& 0 <= p < option_rows(list, passed, directives, asking).len()
                &&& offers(
                    #[trigger] option_rows(list, passed, directives, asking)[p],
                    list[k].names@,
                    list[k].description@,
                    asking.query,
                    asking.fuzzy,
                )
                &&& option_rows(list, passed, directives, asking)[p].kind == "option"@
            },
{
    reveal_strlit("option");
    reveal_strlit("shortcut");
    assert("option"@.len() != "shortcut"@.len());
    lemma_offered(list, passed);
    let offered = offered_options(list, passed);
    let m = choose|m: int| 0 <= m < offered.len() && offered[m] == list[k];
    let keys = option_keys(offered);
    let n = offered.len() as int;
    law_sorting_is_stable(keys, n);
    lemma_every_key_has_a_place(keys, n, m);
    let order = sorted_order(keys, n);
    let i = choose|i: int| 0 <= i < n && #[trigger] order[i] == m;
    let items = option_items(list, passed, directives);
    let asked = Asking { kind: "option"@, ..asking };
    assert(items[i] == option_item(*offered[m], passed, directives));
    lemma_item_offers(items[i], asked);
    lemma_item_rows(items, asked);
    let p = choose|p: int| #[trigger] comes_from(items, asked, p, i);
    assert(option_rows(list, passed, directives, asking)[p] == item_rows(items, asked)[p]);
}

/// Every row for options stands for one that may still be passed.
pub proof fn law_option_rows_may_be_passed(
    list: Seq<Arc<OptionSpec>>,
    passed: Seq<Arc<OptionSpec>>,
    directives: DirectivesView,
    asking: Asking,
    p: int,
)
    requires
        0 <= p < option_rows(list, passed, directives, asking).len(),
    ensures
        exists|k: int|
            0 <= k < list.len() && is_offered(*(#[trigger] list[k]), passed) && option_rows(
                list,
                passed,
                directives,
                asking,
            )[p].alias_names == texts(list[k].names@),
{
    lemma_offered(list, passed);
    let offered = offered_options(list, passed);
    let items = option_items(list, passed, directives);
    let asked = Asking { kind: "option"@, ..asking };
    lemma_item_rows(items, asked);
    assert(has_source(items, asked, p));
    let i = choose|i: int| #[trigger] comes_from(items, asked, p, i);
    let keys = option_keys(offered);
    law_sorting_is_stable(keys, offered.len() as int);
    let order = sorted_order(keys, offered.len() as int);
    let one = offered[order[i]];
    assert(items[i] == option_item(*one, passed, directives));
    let k = choose|k: int| 0 <= k < list.len() && list[k] == one;
    assert(is_offered(*list[k], passed));
}

/// An option is counted once for each that was passed under one of its names.
pub proof fn law_passed_options_are_counted(
    option: OptionSpec,
    passed: Seq<Arc<OptionSpec>>,
    more: Seq<Arc<OptionSpec>>,
)
    ensures
        0 <= times_passed(option, passed) <= passed.len(),
        times_passed(option, passed + more) == times_passed(option, passed) + times_passed(
            option,
            more,
        ),
        (forall|i: int| 0 <= i < passed.len() ==> !share_name(option, *(#[trigger] passed[i])))
            ==> times_passed(option, passed) == 0,
        (forall|i: int| 0 <= i < passed.len() ==> share_name(option, *(#[trigger] passed[i])))
            ==> times_passed(option, passed) == passed.len(),
    decreases passed.len() + more.len(),
{
    if more.len() > 0 {
        law_passed_options_are_counted(option, passed, more.drop_last());
        assert((passed + more).drop_last() =~= passed + more.drop_last());
        assert((passed + more).last() == more.last());
    } else {
        assert(passed + more =~= passed);
        if passed.len() > 0 {
            let rest = passed.drop_last();
            law_passed_options_are_counted(option, rest, more);
            if forall|i: int| 0 <= i < passed.len() ==> !share_name(option, *(#[trigger] passed[i])) {
                assert forall|i: int| 0 <= i < rest.len() implies !share_name(
                    option,
                    *(#[trigger] rest[i]),
                ) by {
                    assert(rest[i] == passed[i]);
                }
                assert(!share_name(option, *passed[passed.len() - 1]));
            }
            if forall|i: int| 0 <= i < passed.len() ==> share_name(option, *(#[trigger] passed[i])) {
                assert forall|i: int| 0 <= i < rest.len() implies share_name(
                    option,
                    *(#[trigger] rest[i]),
                ) by {
                    assert(rest[i] == passed[i]);
                }
                assert(share_name(option, *passed[passed.len() - 1]));
            }
        }
    }
}

/// An option that nothing excludes is offered until it was passed as often as it
/// may be: once, if nothing else is said.
pub proof fn law_options_are_offered_until_used_up(option: OptionSpec, passed: Seq<Arc<OptionSpec>>)
    requires
        forall|i: int|
            0 <= i < passed.len() ==> forall|e: int|
                0 <= e < passed[i].exclusive_on@.len() ==> !texts(option.names@).contains(
                    #[trigger] texts((#[trigger] passed[i]).exclusive_on@)[e],
                ),
    ensures
        option.is_repeatable is None ==> (is_offered(option, passed) <==> times_passed(option, passed)
            == 0),
        option.is_repeatable == Some(Repeatable::Flag(false)) ==> (is_offered(option, passed)
            <==> times_passed(option, passed) == 0),
        option.is_repeatable == Some(Repeatable::Flag(true)) ==> is_offered(option, passed),
        option.is_repeatable matches Some(Repeatable::Count(n)) ==> n > 0 ==> (is_offered(
            option,
            passed,
        ) <==> times_passed(option, passed) < n),
{
    law_passed_options_are_counted(option, passed, Seq::empty());
    if is_excluded(option, passed) {
        let i = choose|i: int| 0 <= i < passed.len() && excludes(*#[trigger] passed[i], option);
        let e = choose|e: int|
            0 <= e < passed[i].exclusive_on@.len() && texts(option.names@).contains(
                #[trigger] texts(passed[i].exclusive_on@)[e],
            );
        assert(!texts(option.names@).contains(texts(passed[i].exclusive_on@)[e]));
    }
}

/// An option that another one excludes is not offered once that one was passed.
pub proof fn law_excluded_options_are_not_offered(
    option: OptionSpec,
    passed: Seq<Arc<OptionSpec>>,
    i: int,
    e: int,
    n: int,
)
    requires
        0 <= i < passed.len(),
        0 <= e < passed[i].exclusive_on@.len(),
        0 <= n < option.names@.len(),
        passed[i].exclusive_on@[e]@ == option.names@[n]@,
    ensures
        !is_offered(option, passed),
{
    assert(texts(option.names@)[n] == texts(passed[i].exclusive_on@)[e]);
    assert(texts(option.names@).contains(texts(passed[i].exclusive_on@)[e]));
    assert(excludes(*passed[i], option));
}

/// An option that one passed depends on, and that is not passed itself, is lifted
/// above others; once it is passed it is not.
pub proof fn law_awaited_options_are_lifted(
    option: OptionSpec,
    passed: Seq<Arc<OptionSpec>>,
    i: int,
    d: int,
    n: int,
)
    requires
        0 <= i < passed.len(),
        0 <= d < passed[i].depends_on@.len(),
        0 <= n < option.names@.len(),
        passed[i].depends_on@[d]@ == option.names@[n]@,
    ensures
        (forall|j: int|
            0 <= j < passed.len() ==> !texts((#[trigger] passed[j]).names@).contains(
                option.names@[n]@,
            )) ==> row_priority(option, passed) == Some(75i64),
        (forall|m: int|
            0 <= m < option.names@.len() ==> exists|j: int|
                0 <= j < passed.len() && texts((#[trigger] passed[j]).names@).contains(
                    #[trigger] texts(option.names@)[m],
                )) ==> row_priority(option, passed) == option.meta.priority,
{
    let name = option.names@[n]@;
    assert(texts(option.names@)[n] == name);
    assert(texts(passed[i].depends_on@)[d] == name);
    assert(texts(passed[i].depends_on@).contains(name));
    if forall|j: int| 0 <= j < passed.len() ==> !texts((#[trigger] passed[j]).names@).contains(name) {
        assert(is_unmet(texts(option.names@)[n], passed));
        assert(is_awaited(option, passed));
    }
    if forall|m: int|
        0 <= m < option.names@.len() ==> exists|j: int|
            0 <= j < passed.len() && texts((#[trigger] passed[j]).names@).contains(
                #[trigger] texts(option.names@)[m],
            ) {
        assert(!is_awaited(option, passed));
    }
}

/// A hint shows the name of the argument in square brackets where it may be left
/// out and in angle brackets where it may not; dots follow a name that stands for
/// many words.
pub proof fn law_hints_show_what_is_needed(arg: ArgSpec)
    ensures
        ({
            let hint = arg_hint(arg);
            let dots = if arg.is_variadic {
                3int
            } else {
                0int
            };
            &&& hint.len() == arg.name@.len() + 2 + dots
            &&& hint.subrange(1, arg.name@.len() + 1int) == arg.name@
            &&& hint[0] == if arg.is_optional {
                '['
            } else {
                '<'
            }
            &&& hint.last() == if arg.is_optional {
                ']'
            } else {
                '>'
            }
            &&& forall|i: int| 0 <= i < dots ==> #[trigger] hint[1 + arg.name@.len() + i] == '.'
        }),
{
    reveal_strlit("...");
    reveal_strlit("[");
    reveal_strlit("]");
    reveal_strlit("<");
    reveal_strlit(">");
    let hint = arg_hint(arg);
    assert(hint.subrange(1, arg.name@.len() + 1int) =~= arg.name@);
}

/// Every name that continues the prefix of a module is offered without it, and
/// nothing else is.
pub proof fn law_commands_are_offered_without_their_prefix(
    names: Seq<Seq<char>>,
    prefix: Seq<char>,
)
    ensures
        forall|k: int|
            0 <= k < names.len() && begins_with(#[trigger] names[k], prefix) && names[k].len()
                > prefix.len() ==> offers_command(
                command_rows(names, prefix),
                names[k].skip(prefix.len() as int),
            ),
        forall|p: int|
            0 <= p < command_rows(names, prefix).len() ==> names.contains(
                prefix + (#[trigger] command_rows(names, prefix)[p]).name,
            ),
    decreases names.len(),
{
    if names.len() > 0 {
        let rest = names.drop_last();
        law_commands_are_offered_without_their_prefix(rest, prefix);
        let earlier = command_rows(rest, prefix);
        let out = command_rows(names, prefix);
        assert forall|k: int|
            0 <= k < names.len() && begins_with(#[trigger] names[k], prefix) && names[k].len()
                > prefix.len() implies offers_command(out, names[k].skip(prefix.len() as int)) by {
            let text = names[k].skip(prefix.len() as int);
            if k < rest.len() {
                assert(rest[k] == names[k]);
                assert(offers_command(earlier, text));
                let p = choose|p: int|
                    0 <= p < earlier.len() && (#[trigger] earlier[p]).name == text
                        && earlier[p].insert_value == Some(text);
                assert(out[p] == earlier[p]);
            } else {
                assert(out[earlier.len() as int].name == text);
            }
        }
        assert forall|p: int| 0 <= p < out.len() implies names.contains(
            prefix + (#[trigger] out[p]).name,
        ) by {
            if p < earlier.len() {
                assert(out[p] == earlier[p]);
                let k = choose|k: int| 0 <= k < rest.len() && rest[k] == prefix + out[p].name;
                assert(names[k] == prefix + out[p].name);
            } else {
                super::text::law_prefixes(names.last(), prefix, Seq::empty());
                assert(names[names.len() - 1] == prefix + out[p].name);
            }
        }
    }
}

/// Some row offers the text and inserts it.
pub open spec fn offers_command(list: Seq<SuggestionView>, text: Seq<char>) -> bool {
    exists|p: int|
        0 <= p < list.len() && (#[trigger] list[p]).name == text && list[p].insert_value == Some(text)
}

/// The rows that are kept are those whose name matches.
pub proof fn law_matching_rows_are_kept(list: Seq<SuggestionView>, query: Seq<char>, fuzzy: bool)
    ensures
        forall|row: SuggestionView| #[trigger]
            matching_rows(list, query, fuzzy).contains(row) <==> list.contains(row) && is_match(
                row.name,
                query,
                fuzzy,
            ),
    decreases list.len(),
{
    if list.len() > 0 {
        let rest = list.drop_last();
        law_matching_rows_are_kept(rest, query, fuzzy);
        let earlier = matching_rows(rest, query, fuzzy);
        let out = matching_rows(list, query, fuzzy);
        assert forall|row: SuggestionView| #[trigger] out.contains(row) <==> list.contains(row)
            && is_match(row.name, query, fuzzy) by {
            assert(list =~= rest.push(list.last()));
            super::shape::lemma_push_contains(rest, list.last(), row);
            super::shape::lemma_push_contains(earlier, list.last(), row);
            assert(earlier.contains(row) <==> rest.contains(row) && is_match(
                row.name,
                query,
                fuzzy,
            ));
        }
    }
}

/// Some row of the list has the name and inserts it.
pub open spec fn has_row_named(list: Seq<SuggestionView>, name: Seq<char>) -> bool {
    exists|p: int|
        0 <= p < list.len() && (#[trigger] list[p]).name == name && list[p].insert_value == Some(name)
            && list[p].primary_name == Some(name)
}

proof fn lemma_short_name(names: Seq<Seq<char>>, i: int, n: int)
    requires
        0 <= i <= n < names.len(),
        is_short(names[n]),
        forall|j: int| 0 <= j < n ==> !is_short(#[trigger] names[j]),
    ensures
        short_name(names, i) == Some(names[n]),
    decreases n - i,
{
    if i < n {
        assert(!is_short(names[i]));
        lemma_short_name(names, i + 1, n);
    }
}

proof fn lemma_chain_rows(
    list: Seq<Arc<OptionSpec>>,
    n: int,
    current: int,
    prefix: Seq<char>,
    passed: Seq<Arc<OptionSpec>>,
    directives: DirectivesView,
    j: int,
    name: Seq<char>,
)
    requires
        0 <= j < n <= list.len(),
        chain_row(list, j, current, prefix, passed, directives) matches Some(row) && row.name == name
            && row.insert_value == Some(name) && row.primary_name == Some(name),
    ensures
        has_row_named(chain_rows(list, n, current, prefix, passed, directives), name),
    decreases n,
{
    let earlier = chain_rows(list, n - 1, current, prefix, passed, directives);
    let out = chain_rows(list, n, current, prefix, passed, directives);
    if j < n - 1 {
        lemma_chain_rows(list, n - 1, current, prefix, passed, directives, j, name);
        let p = choose|p: int|
            0 <= p < earlier.len() && (#[trigger] earlier[p]).name == name && earlier[p].insert_value
                == Some(name) && earlier[p].primary_name == Some(name);
        assert(out[p] == earlier[p]);
    } else {
        assert(out[earlier.len() as int].name == name);
    }
}

/// Behind a chain of short options every other option that has a letter and may
/// still be passed is offered as the chain with that letter behind it, unless the
/// last of the chain waits for its value.
pub proof fn law_chains_may_be_continued(
    list: Seq<Arc<OptionSpec>>,
    current: int,
    prefix: Seq<char>,
    passed: Seq<Arc<OptionSpec>>,
    directives: DirectivesView,
    j: int,
    n: int,
    letter: char,
)
    requires
        0 <= current < list.len(),
        list[current].args@.len() == 0 || list[current].args@[0].is_optional,
        0 <= j < list.len(),
        j != current,
        is_offered(*list[j], passed),
        !list[j].meta.hidden,
        letter != '-',
        0 <= n < list[j].names@.len(),
        list[j].names@[n]@ == seq!['-', letter],
        forall|i: int| 0 <= i < n ==> !is_short(#[trigger] texts(list[j].names@)[i]),
    ensures
        has_row_named(
            chain_rows(list, list.len() as int, current, prefix, passed, directives),
            prefix.push(letter),
        ),
{
    let names = texts(list[j].names@);
    assert(names[n] == seq!['-', letter]);
    assert(is_short(names[n]));
    lemma_short_name(names, 0, n);
    let short = seq!['-', letter];
    assert(prefix + short.skip(1) =~= prefix.push(letter));
    lemma_chain_rows(
        list,
        list.len() as int,
        current,
        prefix,
        passed,
        directives,
        j,
        prefix.push(letter),
    );
}

/// What is put behind an option before its value: the separator of its own, an
/// equals sign where it must have one, and nothing where the value may be left out
/// or none is needed.
pub proof fn law_separators_to_add(option: OptionSpec, directives: DirectivesView)
    ensures
        option.meta.separator_to_add matches Some(own) ==> separator_for(option, directives) == Some(
            own@,
        ),
        option.meta.separator_to_add is None && option.requires_separator is None
            && option.requires_equals && option.args@.len() > 0 && !option.args@[0].is_optional
            ==> separator_for(option, directives) == Some("="@),
        option.meta.separator_to_add is None && option.requires_separator is None
            && !option.requires_equals ==> separator_for(option, directives) is None,
        option.meta.separator_to_add is None && option.requires_separator is None
            && option.args@.len() > 0 && option.args@[0].is_optional ==> separator_for(
            option,
            directives,
        ) is None,
        option.meta.separator_to_add is None && option.requires_separator == Some(
            crate::json::Json::Bool(true),
        ) && option.args@.len() > 0 && !option.args@[0].is_optional && directives.separators is None
            ==> separator_for(option, directives) == Some("="@),
{
}

/// An entry with several names shows them all, unless it has a display name of its
/// own; one with a single name shows that.
pub proof fn law_all_names_are_shown(own: Seq<char>, names: Seq<Seq<char>>)
    ensures
        shown_name(Some(own), names) == Some(own),
        names.len() == 1 ==> shown_name(None, names) is None,
        names.len() == 2 ==> shown_name(None, names) == Some(names[0] + ", "@ + names[1]),
        names.len() > 1 ==> shown_name(None, names) is Some && begins_with(
            shown_name(None, names)->Some_0,
            names[0],
        ),
{
    let none: Option<Seq<char>> = None;
    if names.len() == 2 {
        super::text::law_joining_appends(names.drop_last(), names.last(), ", "@);
        assert(names.drop_last() =~= seq![names[0]]);
        assert(names.drop_last().push(names.last()) =~= names);
    }
    if names.len() > 1 {
        super::sources::lemma_joined_begins(names, ", "@);
        let all = crate::text::joined(names, ", "@);
        assert(all.subrange(0, names[0].len() as int) =~= all.take(names[0].len() as int));
    }
}

/// A row for an entry carries over what the entry says about inserting it, and
/// whether that is dangerous.
pub proof fn law_rows_carry_their_entry(item: ItemView, asking: Asking)
    ensures
        item_row(item, asking) matches Some(row) ==> {
            &&& texts(item.names).len() > 0 ==> texts(item.names).contains(row.name)
            &&& row.insert_value == crate::text::opt_text(item.meta.insert_value)
            &&& row.is_dangerous == item.meta.is_dangerous
            &&& row.should_add_space == item.add_space
            &&& row.separator_to_add == item.separator
            &&& row.requires_arg == item.requires_arg
            &&& row.args_hint == item.hint
            &&& item.priority is None ==> row.priority == 50
            &&& item.priority matches Some(priority) ==> 0 < priority <= 100 ==> row.priority
                == priority
        },
{
    if item_row(item, asking) is Some {
        let names = texts(item.names);
        let kind = crate::lookup::candidates::kind_of(item.meta.suggestion_type, asking.kind);
        let (query, term) = crate::runtime::row_term(
            kind,
            crate::text::opt_text(item.meta.get_query_term),
            None,
            asking.query,
            asking.search_term,
            None,
        );
        let prefer_long = asking.prefer_verbose && (kind == "option"@ || kind == "subcommand"@);
        let display = crate::text::opt_text(item.meta.display_name);
        law_matching_names_are_offered(names, display, query, asking.fuzzy, prefer_long);
        let i = chosen_name(names, display, query, asking.fuzzy, prefer_long)->Some_0;
        assert(names.contains(names[i]));
    }
}

/// A space follows what must have an argument or a subcommand.
pub proof fn law_spaces_follow_what_needs_more(
    args: Seq<Arc<ArgSpec>>,
    requires_subcommand: Option<bool>,
    has_subcommands: bool,
)
    ensures
        args.len() > 0 && !args[0].is_optional ==> adds_space(
            args,
            requires_subcommand,
            has_subcommands,
        ),
        requires_subcommand == Some(true) ==> adds_space(args, requires_subcommand, has_subcommands),
        args.len() == 0 && requires_subcommand == Some(false) ==> !adds_space(
            args,
            requires_subcommand,
            has_subcommands,
        ),
        args.len() == 0 && requires_subcommand is None ==> (adds_space(
            args,
            requires_subcommand,
            has_subcommands,
        ) <==> has_subcommands),
{
}

proof fn lemma_seed_items(list: Seq<SuggestionSeed>, k: int) -> (i: int)
    requires
        0 <= k < list.len(),
    ensures
        0 <= i < seed_items(list).len(),
        seed_items(list)[i] == seed_item(list[k]),
{
    let keys = seed_keys(list);
    let n = list.len() as int;
    law_sorting_is_stable(keys, n);
    lemma_every_key_has_a_place(keys, n, k);
    let order = sorted_order(keys, n);
    let i = choose|i: int| 0 <= i < n && #[trigger] order[i] == k;
    assert(seed_items(list)[i] == seed_item(list[order[i]]));
    i
}

/// Every further suggestion of a spec with a name that matches the query has a row.
pub proof fn law_further_suggestions_have_rows(list: Seq<SuggestionSeed>, asking: Asking, k: int)
    requires
        0 <= k < list.len(),
        is_plain_meta(list[k].meta),
        !list[k].meta.hidden,
        has_matching_name(list[k].names@, asking.query, asking.fuzzy),
    ensures
        exists|p: int|
            0 <= p < additional_rows(list, asking, false).len() && offers(
                #[trigger] additional_rows(list, asking, false)[p],
                list[k].names@,
                list[k].description@,
                asking.query,
                asking.fuzzy,
            ),
{
    reveal_strlit("arg");
    reveal_strlit("shortcut");
    assert("arg"@.len() != "shortcut"@.len());
    let i = lemma_seed_items(list, k);
    let items = seed_items(list);
    let asked = Asking { kind: "arg"@, ..asking };
    lemma_item_offers(items[i], asked);
    lemma_item_rows(items, asked);
    let p = choose|p: int| #[trigger] comes_from(items, asked, p, i);
    let row = item_rows(items, asked)[p];
    let out = additional_rows(list, asking, false)[p];
    assert(out.name == row.name && out.alias_names == row.alias_names && out.primary_name
        == row.primary_name && out.description == row.description);
    assert(offers(out, list[k].names@, list[k].description@, asking.query, asking.fuzzy));
}

} // verus!
