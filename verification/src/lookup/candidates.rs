//! Rows for subcommands, options and static suggestions.
use std::sync::Arc;
use vstd::prelude::*;
use vstd::utf8::encode_utf8;

use super::options::{first_is_mandatory, needs_value};
use crate::ir::{ArgSpec, Spec, SuggestionMeta};
use crate::query::{is_match, matches_query};
use crate::runtime::{
    new_row, priority_or_default, row_term, rows, suggestion_query_term_with_hook, Suggestion,
    SuggestionView,
};
use crate::text::{
    as_text, before, comes_before, concat, copy_texts, holds_ignoring_case,
    holds_ignoring_case_spec, join, joined, law_dictionary_order, lowered, opt_str, opt_text, same,
    texts,
};

verus! {

// ---------------------------------------------------------------------------
// Hints and spacing
// ---------------------------------------------------------------------------
/// How one argument is hinted at: `<name>`, or `[name]` where it is optional,
/// with dots behind the name of a variadic one.
pub open spec fn arg_hint(arg: ArgSpec) -> Seq<char> {
    let base = if arg.is_variadic {
        arg.name@ + "..."@
    } else {
        arg.name@
    };
    if arg.is_optional {
        "["@ + base + "]"@
    } else {
        "<"@ + base + ">"@
    }
}

/// The hints of the named arguments.
pub open spec fn arg_hints(args: Seq<Arc<ArgSpec>>) -> Seq<Seq<char>>
    decreases args.len(),
{
    if args.len() == 0 {
        Seq::empty()
    } else if args.last().name@.len() > 0 {
        arg_hints(args.drop_last()).push(arg_hint(*args.last()))
    } else {
        arg_hints(args.drop_last())
    }
}

/// Computes the hint of a list of arguments.
pub fn args_hint(args: &[Arc<ArgSpec>]) -> (hint: String)
    ensures
        hint@ == joined(arg_hints(args@), " "@),
{
    let mut hints: Vec<String> = Vec::new();
    let mut i: usize = 0;
    while i < args.len()
        invariant
            i <= args@.len(),
            texts(hints@) == arg_hints(args@.take(i as int)),
        decreases args@.len() - i,
    {
        let arg = &args[i];
        proof {
            assert(args@.take(i + 1).drop_last() =~= args@.take(i as int));
            assert(args@.take(i + 1).last() == *arg);
        }
        if !arg.name.as_str().is_empty() {
            let base = if arg.is_variadic {
                concat(&arg.name, "...")
            } else {
                arg.name.clone()
            };
            let (open, close) = if arg.is_optional {
                ("[", "]")
            } else {
                ("<", ">")
            };
            let opened = concat(open, &base);
            let ghost had = hints@;
            hints.push(concat(&opened, close));
            proof {
                assert(texts(hints@) =~= texts(had).push(arg_hint(**arg)));
            }
        }
        i += 1;
    }
    proof {
        assert(args@.take(args@.len() as int) =~= args@);
    }
    join(&hints, " ")
}

/// Whether a space follows an accepted row: where an argument is mandatory,
/// else where a subcommand is.
pub open spec fn adds_space(
    args: Seq<Arc<ArgSpec>>,
    requires_subcommand: Option<bool>,
    has_subcommands: bool,
) -> bool {
    needs_value(args) || match requires_subcommand {
        Some(required) => required,
        None => has_subcommands,
    }
}

/// Computes [`adds_space`].
pub fn should_add_space(
    args: &[Arc<ArgSpec>],
    requires_subcommand: Option<bool>,
    has_subcommands: bool,
) -> (yes: bool)
    ensures
        yes == adds_space(args@, requires_subcommand, has_subcommands),
{
    if first_is_mandatory(args) {
        return true;
    }
    match requires_subcommand {
        Some(required) => required,
        None => has_subcommands,
    }
}

// ---------------------------------------------------------------------------
// Filtering mode
// ---------------------------------------------------------------------------
/// Whether matching is fuzzy. An argument under the caret decides by itself,
/// without its command; only else does the command decide.
pub open spec fn fuzzy_for(user_fuzzy: bool, spec: Spec, active: Option<Arc<ArgSpec>>) -> bool {
    match active {
        Some(arg) => match arg.filter_strategy {
            Some(strategy) => strategy.is_fuzzy(user_fuzzy),
            None => user_fuzzy,
        },
        None => match spec.filter_strategy {
            Some(strategy) => strategy.is_fuzzy(user_fuzzy),
            None => user_fuzzy,
        },
    }
}

/// The argument of an optional reference.
pub open spec fn arg_at(active: Option<&Arc<ArgSpec>>) -> Option<Arc<ArgSpec>> {
    match active {
        Some(arg) => Some(*arg),
        None => None,
    }
}

/// Computes [`fuzzy_for`].
pub fn effective_fuzzy(user_fuzzy: bool, spec: &Spec, active: Option<&Arc<ArgSpec>>) -> (fuzzy: bool)
    ensures
        fuzzy == fuzzy_for(user_fuzzy, *spec, arg_at(active)),
{
    match active {
        Some(arg) => match arg.filter_strategy {
            Some(strategy) => strategy.effective_fuzzy(user_fuzzy),
            None => user_fuzzy,
        },
        None => match spec.filter_strategy {
            Some(strategy) => strategy.effective_fuzzy(user_fuzzy),
            None => user_fuzzy,
        },
    }
}

/// The rows that match a query.
pub open spec fn matching_rows(
    list: Seq<SuggestionView>,
    query: Seq<char>,
    fuzzy: bool,
) -> Seq<SuggestionView>
    decreases list.len(),
{
    if list.len() == 0 {
        Seq::empty()
    } else if is_match(list.last().name, query, fuzzy) {
        matching_rows(list.drop_last(), query, fuzzy).push(list.last())
    } else {
        matching_rows(list.drop_last(), query, fuzzy)
    }
}

/// Computes [`matching_rows`].
pub fn filter_query(items: Vec<Suggestion>, query: &str, fuzzy: bool) -> (out: Vec<Suggestion>)
    ensures
        rows(out@) == matching_rows(rows(items@), query@, fuzzy),
{
    let mut out: Vec<Suggestion> = Vec::new();
    let mut i: usize = 0;
    proof {
        assert(rows(items@).take(0) =~= Seq::<SuggestionView>::empty());
    }
    while i < items.len()
        invariant
            i <= items@.len(),
            rows(out@) == matching_rows(rows(items@).take(i as int), query@, fuzzy),
        decreases items@.len() - i,
    {
        proof {
            assert(rows(items@).take(i + 1).drop_last() =~= rows(items@).take(i as int));
            assert(rows(items@).take(i + 1).last() == items@[i as int]@);
        }
        if matches_query(&items[i].name, query, fuzzy) {
            let ghost had = out@;
            out.push(items[i].clone());
            proof {
                assert(rows(out@) =~= rows(had).push(items@[i as int]@));
            }
        }
        i += 1;
    }
    proof {
        assert(rows(items@).take(items@.len() as int) =~= rows(items@));
    }
    out
}

// ---------------------------------------------------------------------------
// Names
// ---------------------------------------------------------------------------
/// The length of a name in bytes.
pub open spec fn byte_len(name: Seq<char>) -> usize {
    encode_utf8(name).len() as usize
}

/// The names, among the first `i`, that match a query.
pub open spec fn matching_names(names: Seq<Seq<char>>, query: Seq<char>, fuzzy: bool, i: int) -> Seq<
    int,
>
    decreases i,
{
    if i <= 0 {
        Seq::empty()
    } else if is_match(names[i - 1], query, fuzzy) {
        matching_names(names, query, fuzzy, i - 1).push(i - 1)
    } else {
        matching_names(names, query, fuzzy, i - 1)
    }
}

/// The place of the longest of the listed names, the last where several are.
pub open spec fn longest(names: Seq<Seq<char>>, places: Seq<int>) -> int
    decreases places.len(),
{
    if places.len() <= 1 {
        places[0]
    } else {
        let best = longest(names, places.drop_last());
        if byte_len(names[places.last()]) >= byte_len(names[best]) {
            places.last()
        } else {
            best
        }
    }
}

/// All places of a list.
pub open spec fn all_places(n: int) -> Seq<int> {
    Seq::new(n as nat, |i: int| i)
}

/// The spelling of a row that is offered for a query: the first that matches,
/// or the longest where long names are preferred. Where none matches, the
/// display name may match in their place.
pub open spec fn chosen_name(
    names: Seq<Seq<char>>,
    display_name: Option<Seq<char>>,
    query: Seq<char>,
    fuzzy: bool,
    prefer_long: bool,
) -> Option<int> {
    let matching = matching_names(names, query, fuzzy, names.len() as int);
    if matching.len() > 0 {
        Some(
            if prefer_long {
                longest(names, matching)
            } else {
                matching[0]
            },
        )
    } else if names.len() > 0 && (display_name matches Some(display) && is_match(
        display,
        query,
        fuzzy,
    )) {
        Some(
            if prefer_long {
                longest(names, all_places(names.len() as int))
            } else {
                0
            },
        )
    } else {
        None
    }
}

/// Computes [`chosen_name`].
pub fn select_named_candidate(
    item_names: &[String],
    display_name: Option<&str>,
    query: &str,
    fuzzy: bool,
    prefer_long_name: bool,
) -> (chosen: Option<usize>)
    ensures
        match chosen {
            Some(i) => chosen_name(
                texts(item_names@),
                opt_str(display_name),
                query@,
                fuzzy,
                prefer_long_name,
            ) == Some(i as int) && i < item_names@.len(),
            None => chosen_name(
                texts(item_names@),
                opt_str(display_name),
                query@,
                fuzzy,
                prefer_long_name,
            ) is None,
        },
{
    let ghost names = texts(item_names@);
    let mut best: Option<usize> = None;
    let mut i: usize = 0;
    while i < item_names.len()
        invariant
            i <= item_names@.len(),
            names == texts(item_names@),
            ({
                let places = matching_names(names, query@, fuzzy, i as int);
                match best {
                    None => places.len() == 0,
                    Some(b) => places.len() > 0 && b < item_names@.len() && b
                        == if prefer_long_name {
                        longest(names, places)
                    } else {
                        places[0]
                    },
                }
            }),
        decreases item_names@.len() - i,
    {
        let ghost places = matching_names(names, query@, fuzzy, i as int);
        proof {
            assert(names[i as int] == item_names@[i as int]@);
            assert(places.push(i as int).drop_last() =~= places);
        }
        if matches_query(&item_names[i], query, fuzzy) {
            match best {
                None => {
                    best = Some(i);
                },
                Some(b) => {
                    if prefer_long_name && item_names[i].as_str().len()
                        >= item_names[b].as_str().len() {
                        best = Some(i);
                    }
                },
            }
        }
        i += 1;
    }
    if best.is_some() {
        return best;
    }
    let display = match display_name {
        None => {
            return None;
        },
        Some(display) => display,
    };
    if item_names.len() == 0 || !matches_query(display, query, fuzzy) {
        return None;
    }
    if !prefer_long_name {
        return Some(0);
    }
    let mut b: usize = 0;
    let mut j: usize = 1;
    while j < item_names.len()
        invariant
            1 <= j <= item_names@.len(),
            b < item_names@.len(),
            names == texts(item_names@),
            b == longest(names, all_places(j as int)),
        decreases item_names@.len() - j,
    {
        proof {
            assert(all_places(j + 1).drop_last() =~= all_places(j as int));
            assert(names[j as int] == item_names@[j as int]@);
            assert(names[b as int] == item_names@[b as int]@);
        }
        if item_names[j].as_str().len() >= item_names[b].as_str().len() {
            b = j;
        }
        j += 1;
    }
    Some(b)
}

/// Whether a row is shown: a hidden one only where one of its names was typed
/// out.
pub open spec fn is_visible(hidden: bool, names: Seq<String>, query: Seq<char>) -> bool {
    !hidden || holds_ignoring_case_spec(names, query)
}

/// Computes [`is_visible`].
pub fn hidden_item_is_visible(hidden: bool, item_names: &[String], query: &str) -> (yes: bool)
    ensures
        yes == is_visible(hidden, item_names@, query@),
{
    !hidden || holds_ignoring_case(item_names, query)
}

// ---------------------------------------------------------------------------
// Sorting by first name
// ---------------------------------------------------------------------------
/// The first of a list of names, or the empty name.
pub open spec fn first_name(names: Seq<Seq<char>>) -> Seq<char> {
    if names.len() > 0 {
        names[0]
    } else {
        Seq::empty()
    }
}

/// Alphabetical order up to ASCII case, ties by character value.
pub open spec fn name_before(a: Seq<char>, b: Seq<char>) -> bool {
    before(lowered(a), lowered(b)) || (lowered(a) == lowered(b) && before(a, b))
}

/// The order of names is strict and total.
pub proof fn law_name_order(a: Seq<char>, b: Seq<char>, c: Seq<char>)
    ensures
        !name_before(a, a),
        !(name_before(a, b) && name_before(b, a)),
        a == b || name_before(a, b) || name_before(b, a),
        name_before(a, b) && name_before(b, c) ==> name_before(a, c),
{
    law_dictionary_order(lowered(a), lowered(b), lowered(c));
    law_dictionary_order(lowered(a), lowered(a), lowered(a));
    law_dictionary_order(a, b, c);
    law_dictionary_order(a, a, a);
}

fn is_name_before(a: &str, b: &str) -> (yes: bool)
    ensures
        yes == name_before(a@, b@),
{
    match crate::query::cmp_ignore_ascii_case(a, b) {
        std::cmp::Ordering::Less => {
            true
        },
        std::cmp::Ordering::Greater => {
            proof {
                law_dictionary_order(lowered(a@), lowered(b@), lowered(b@));
            }
            false
        },
        std::cmp::Ordering::Equal => {
            proof {
                law_dictionary_order(lowered(a@), lowered(b@), lowered(b@));
            }
            comes_before(a, b)
        },
    }
}

/// The first place in a sorted order, from `i` on, whose key comes after the
/// given one.
pub open spec fn place_after(order: Seq<int>, keys: Seq<Seq<char>>, key: Seq<char>, i: int) -> int
    decreases order.len() - i,
{
    if 0 <= i < order.len() && !name_before(key, keys[order[i]]) {
        place_after(order, keys, key, i + 1)
    } else {
        i
    }
}

/// The first `n` items in the order of their keys; items with the same key
/// stay in their order.
pub open spec fn sorted_order(keys: Seq<Seq<char>>, n: int) -> Seq<int>
    decreases n,
{
    if n <= 0 {
        Seq::empty()
    } else {
        let earlier = sorted_order(keys, n - 1);
        earlier.insert(place_after(earlier, keys, keys[n - 1], 0), n - 1)
    }
}

/// Whether an order lists each of the first `n` items once, sorted by key and
/// equal keys by place.
pub open spec fn is_stable_order(order: Seq<int>, keys: Seq<Seq<char>>, n: int) -> bool {
    &&& order.len() == n
    &&& forall|i: int| 0 <= i < n ==> 0 <= #[trigger] order[i] < n
    &&& forall|i: int, j: int|
        #![trigger order[i], order[j]]
        0 <= i < j < n ==> name_before(keys[order[i]], keys[order[j]]) || (keys[order[i]]
            == keys[order[j]] && order[i] < order[j])
}

proof fn lemma_place_after(order: Seq<int>, keys: Seq<Seq<char>>, key: Seq<char>, i: int)
    requires
        0 <= i <= order.len(),
    ensures
        i <= place_after(order, keys, key, i) <= order.len(),
        forall|j: int|
            i <= j < place_after(order, keys, key, i) ==> !name_before(key, keys[#[trigger] order[j]]),
        place_after(order, keys, key, i) < order.len() ==> name_before(
            key,
            keys[order[place_after(order, keys, key, i)]],
        ),
    decreases order.len() - i,
{
    if i < order.len() && !name_before(key, keys[order[i]]) {
        lemma_place_after(order, keys, key, i + 1);
    }
}

/// Sorting by name is a stable sort: every item appears once, names do not
/// decrease, and equal names keep their order.
pub proof fn law_sorting_is_stable(keys: Seq<Seq<char>>, n: int)
    requires
        0 <= n <= keys.len(),
    ensures
        is_stable_order(sorted_order(keys, n), keys, n),
    decreases n,
{
    if n > 0 {
        law_sorting_is_stable(keys, n - 1);
        let earlier = sorted_order(keys, n - 1);
        let key = keys[n - 1];
        let k = place_after(earlier, keys, key, 0);
        lemma_place_after(earlier, keys, key, 0);
        let order = sorted_order(keys, n);
        assert forall|i: int| 0 <= i < n implies 0 <= #[trigger] order[i] < n by {
            if i < k {
                assert(order[i] == earlier[i]);
            } else if i > k {
                assert(order[i] == earlier[i - 1]);
            }
        }
        assert forall|i: int, j: int|
            #![trigger order[i], order[j]]
            0 <= i < j < n implies name_before(keys[order[i]], keys[order[j]]) || (keys[order[i]]
            == keys[order[j]] && order[i] < order[j]) by {
            if j == k {
                assert(order[i] == earlier[i]);
                law_name_order(keys[earlier[i]], key, key);
            } else if i == k {
                assert(order[j] == earlier[j - 1]);
                law_name_order(key, keys[earlier[k]], keys[earlier[j - 1]]);
                if j - 1 > k {
                    assert(name_before(keys[earlier[k]], keys[earlier[j - 1]]) || (
                    keys[earlier[k]] == keys[earlier[j - 1]]));
                }
            } else {
                let a = if i < k { i } else { i - 1 };
                let b = if j < k { j } else { j - 1 };
                assert(order[i] == earlier[a]);
                assert(order[j] == earlier[b]);
            }
        }
    }
}

proof fn lemma_place_is(order: Seq<int>, keys: Seq<Seq<char>>, key: Seq<char>, i: int, k: int)
    requires
        0 <= i <= k <= order.len(),
        forall|j: int| i <= j < k ==> !name_before(key, keys[#[trigger] order[j]]),
        k < order.len() ==> name_before(key, keys[order[k]]),
    ensures
        place_after(order, keys, key, i) == k,
    decreases k - i,
{
    if i < k {
        assert(!name_before(key, keys[order[i]]));
        lemma_place_is(order, keys, key, i + 1, k);
    }
}

/// The places as integers.
pub open spec fn places(order: Seq<usize>) -> Seq<int> {
    Seq::new(order.len(), |i: int| order[i] as int)
}

/// Computes [`sorted_order`] of all keys.
pub fn sort_by_name(keys: &[String]) -> (order: Vec<usize>)
    ensures
        places(order@) == sorted_order(texts(keys@), keys@.len() as int),
        order@.len() == keys@.len(),
        forall|i: int| 0 <= i < order@.len() ==> (#[trigger] order@[i]) < keys@.len(),
{
    let ghost all = texts(keys@);
    let mut order: Vec<usize> = Vec::new();
    let mut n: usize = 0;
    proof {
        assert(places(order@) =~= Seq::<int>::empty());
    }
    while n < keys.len()
        invariant
            n <= keys@.len(),
            all == texts(keys@),
            places(order@) == sorted_order(all, n as int),
            order@.len() == n,
            forall|i: int| 0 <= i < order@.len() ==> (#[trigger] order@[i]) < n,
        decreases keys@.len() - n,
    {
        let ghost done = places(order@);
        let key = keys[n].as_str();
        proof {
            law_sorting_is_stable(all, n as int);
            assert(all[n as int] == key@);
        }
        let mut low: usize = 0;
        let mut high: usize = n;
        while low < high
            invariant
                low <= high <= n,
                n < keys@.len(),
                all == texts(keys@),
                done == places(order@),
                order@.len() == n,
                key@ == all[n as int],
                is_stable_order(done, all, n as int),
                forall|i: int| 0 <= i < order@.len() ==> (#[trigger] order@[i]) < n,
                forall|j: int| 0 <= j < low ==> !name_before(key@, all[#[trigger] done[j]]),
                forall|j: int| high <= j < n ==> name_before(key@, all[#[trigger] done[j]]),
            decreases high - low,
        {
            let mid: usize = low + (high - low) / 2;
            proof {
                assert(done[mid as int] == order@[mid as int]);
                assert(all[done[mid as int]] == keys@[order@[mid as int] as int]@);
            }
            if is_name_before(key, &keys[order[mid]]) {
                proof {
                    assert forall|j: int| mid <= j < n implies name_before(
                        key@,
                        all[#[trigger] done[j]],
                    ) by {
                        if j > mid {
                            law_name_order(key@, all[done[mid as int]], all[done[j]]);
                        }
                    }
                }
                high = mid;
            } else {
                proof {
                    assert forall|j: int| 0 <= j < mid + 1 implies !name_before(
                        key@,
                        all[#[trigger] done[j]],
                    ) by {
                        if j < mid {
                            assert(done[j] == order@[j] && done[mid as int] == order@[mid as int]);
                            law_name_order(key@, all[done[j]], all[done[mid as int]]);
                        }
                    }
                }
                low = mid + 1;
            }
        }
        proof {
            lemma_place_is(done, all, key@, 0, low as int);
        }
        order.insert(low, n);
        proof {
            assert(places(order@) =~= done.insert(low as int, n as int));
            assert forall|i: int| 0 <= i < order@.len() implies (#[trigger] order@[i]) < n + 1 by {
                assert(places(order@)[i] == order@[i]);
                if i < low {
                    assert(order@[i] == done[i]);
                } else if i > low {
                    assert(order@[i] == done[i - 1]);
                }
            }
        }
        n += 1;
    }
    order
}

// ---------------------------------------------------------------------------
// Rows of named items
// ---------------------------------------------------------------------------
/// What a row is made from.
pub struct NamedItem<'a> {
    pub names: &'a Vec<String>,
    pub description: &'a str,
    pub hint: String,
    pub meta: &'a SuggestionMeta,
    pub add_space: bool,
    pub separator: Option<String>,
    pub requires_arg: bool,
    pub priority: Option<i64>,
}

/// What a row is made from.
pub struct ItemView {
    pub names: Seq<String>,
    pub description: Seq<char>,
    pub hint: Seq<char>,
    pub meta: SuggestionMeta,
    pub add_space: bool,
    pub separator: Option<Seq<char>>,
    pub requires_arg: bool,
    pub priority: Option<i64>,
}

impl<'a> View for NamedItem<'a> {
    type V = ItemView;

    open spec fn view(&self) -> ItemView {
        ItemView {
            names: self.names@,
            description: self.description@,
            hint: self.hint@,
            meta: *self.meta,
            add_space: self.add_space,
            separator: opt_text(self.separator),
            requires_arg: self.requires_arg,
            priority: self.priority,
        }
    }
}

/// How rows are asked for.
pub struct Asking {
    pub kind: Seq<char>,
    pub query: Seq<char>,
    pub search_term: Seq<char>,
    pub fuzzy: bool,
    pub prefer_verbose: bool,
}

/// The display name of a row: its own, or all its spellings where it has
/// several.
pub open spec fn shown_name(own: Option<Seq<char>>, names: Seq<Seq<char>>) -> Option<Seq<char>> {
    if own is Some {
        own
    } else if names.len() > 1 {
        Some(joined(names, ", "@))
    } else {
        None
    }
}

/// Computes [`shown_name`].
pub fn display_name_of(own: &Option<String>, names: &[String]) -> (shown: Option<String>)
    ensures
        opt_text(shown) == shown_name(opt_text(*own), texts(names@)),
{
    match own {
        Some(own) => Some(own.clone()),
        None => {
            if names.len() > 1 {
                Some(join(names, ", "))
            } else {
                None
            }
        },
    }
}

/// The kind of a row: its own, or the one that its collection supplies.
pub open spec fn kind_of(own: Option<String>, kind: Seq<char>) -> Seq<char> {
    match own {
        Some(own) => own@,
        None => kind,
    }
}

/// The row of an item under one of its names.
pub open spec fn dressed_row(
    item: ItemView,
    name: Seq<char>,
    kind: Seq<char>,
    term: Option<Seq<char>>,
) -> SuggestionView {
    let names = texts(item.names);
    SuggestionView {
        args_hint: item.hint,
        insert_value: opt_text(item.meta.insert_value),
        display_name: shown_name(opt_text(item.meta.display_name), names),
        separator_to_add: item.separator,
        should_add_space: item.add_space,
        hidden: item.meta.hidden,
        priority: priority_or_default(item.priority),
        icon: opt_text(item.meta.icon),
        primary_name: if names.len() > 0 {
            Some(names[0])
        } else {
            None
        },
        is_dangerous: item.meta.is_dangerous,
        original_type: opt_text(item.meta.original_type),
        query_term: term,
        requires_arg: item.requires_arg,
        alias_names: names,
        ..new_row(name, item.description, kind)
    }
}

/// Computes [`dressed_row`].
fn dress_row(item: &NamedItem<'_>, name: &str, kind: &str, term: Option<String>) -> (row: Suggestion)
    ensures
        row@ == dressed_row(item@, name@, kind@, opt_text(term)),
{
    let meta = item.meta;
    let primary: Option<String> = if item.names.len() > 0 {
        Some(item.names[0].clone())
    } else {
        None
    };
    let row = Suggestion::new(name, item.description, kind).with_args_hint(
        item.hint.clone(),
    ).with_meta(
        meta.insert_value.clone(),
        display_name_of(&meta.display_name, item.names),
        item.separator.clone(),
        item.add_space,
        meta.hidden,
        item.priority,
        meta.icon.clone(),
    ).with_primary_name(primary).with_alias_names(copy_texts(item.names)).with_dangerous(
        meta.is_dangerous,
    ).with_original_type(meta.original_type.clone()).with_query_term(term);
    Suggestion { requires_arg: item.requires_arg, ..row }
}

/// The row of one item, where it is offered.
pub open spec fn item_row(item: ItemView, asking: Asking) -> Option<SuggestionView> {
    let kind = kind_of(item.meta.suggestion_type, asking.kind);
    let (query, term) = row_term(
        kind,
        opt_text(item.meta.get_query_term),
        None,
        asking.query,
        asking.search_term,
        None,
    );
    let names = texts(item.names);
    let prefer_long = asking.prefer_verbose && (kind == "option"@ || kind == "subcommand"@);
    match chosen_name(names, opt_text(item.meta.display_name), query, asking.fuzzy, prefer_long) {
        None => None,
        Some(i) => if !is_visible(item.meta.hidden, item.names, query) {
            None
        } else {
            Some(dressed_row(item, names[i], kind, term))
        },
    }
}

/// Computes [`item_row`].
pub fn named_row(
    item: &NamedItem<'_>,
    kind: &str,
    query: &str,
    search_term: &str,
    fuzzy: bool,
    prefer_verbose: bool,
) -> (row: Option<Suggestion>)
    ensures
        match row {
            Some(row) => item_row(
                item@,
                (Asking {
                    kind: kind@,
                    query: query@,
                    search_term: search_term@,
                    fuzzy,
                    prefer_verbose,
                }),
            ) == Some(row@),
            None => item_row(
                item@,
                (Asking {
                    kind: kind@,
                    query: query@,
                    search_term: search_term@,
                    fuzzy,
                    prefer_verbose,
                }),
            ) is None,
        },
{
    let meta = item.meta;
    let row_kind = match &meta.suggestion_type {
        Some(own) => own.as_str(),
        None => kind,
    };
    let (item_query, item_term) = suggestion_query_term_with_hook(
        row_kind,
        as_text(&meta.get_query_term),
        None,
        query,
        search_term,
        None,
    );
    let prefer_long = prefer_verbose && (same(row_kind, "option") || same(row_kind, "subcommand"));
    let chosen = match select_named_candidate(
        item.names,
        as_text(&meta.display_name),
        &item_query,
        fuzzy,
        prefer_long,
    ) {
        None => {
            return None;
        },
        Some(chosen) => chosen,
    };
    if !hidden_item_is_visible(meta.hidden, item.names, &item_query) {
        return None;
    }
    Some(dress_row(item, &item.names[chosen], row_kind, item_term))
}

/// The rows of the first `n` items, in the given order.
pub open spec fn item_rows(items: Seq<ItemView>, asking: Asking) -> Seq<SuggestionView>
    decreases items.len(),
{
    if items.len() == 0 {
        Seq::empty()
    } else {
        match item_row(items.last(), asking) {
            Some(row) => item_rows(items.drop_last(), asking).push(row),
            None => item_rows(items.drop_last(), asking),
        }
    }
}

/// What the items of a list are.
pub open spec fn item_views<'a>(items: Seq<NamedItem<'a>>) -> Seq<ItemView> {
    Seq::new(items.len(), |i: int| items[i]@)
}

/// Computes [`item_rows`].
pub fn collect_named(
    items: &Vec<NamedItem<'_>>,
    kind: &str,
    query: &str,
    search_term: &str,
    fuzzy: bool,
    prefer_verbose: bool,
) -> (out: Vec<Suggestion>)
    ensures
        rows(out@) == item_rows(
            item_views(items@),
            (Asking {
                kind: kind@,
                query: query@,
                search_term: search_term@,
                fuzzy,
                prefer_verbose,
            }),
        ),
{
    let ghost asking = Asking {
        kind: kind@,
        query: query@,
        search_term: search_term@,
        fuzzy,
        prefer_verbose,
    };
    let ghost all = item_views(items@);
    let mut out: Vec<Suggestion> = Vec::new();
    let mut i: usize = 0;
    proof {
        assert(all.take(0) =~= Seq::<ItemView>::empty());
        assert(rows(out@) =~= Seq::<SuggestionView>::empty());
    }
    while i < items.len()
        invariant
            i <= items@.len(),
            all == item_views(items@),
            asking == (Asking {
                kind: kind@,
                query: query@,
                search_term: search_term@,
                fuzzy,
                prefer_verbose,
            }),
            rows(out@) == item_rows(all.take(i as int), asking),
        decreases items@.len() - i,
    {
        proof {
            assert(all.take(i + 1).drop_last() =~= all.take(i as int));
            assert(all.take(i + 1).last() == items@[i as int]@);
        }
        if let Some(row) = named_row(
            &items[i],
            kind,
            query,
            search_term,
            fuzzy,
            prefer_verbose,
        ) {
            let ghost had = out@;
            out.push(row);
            proof {
                assert(rows(out@) =~= rows(had).push(row@));
            }
        }
        i += 1;
    }
    proof {
        assert(all.take(all.len() as int) =~= all);
    }
    out
}

// ---------------------------------------------------------------------------
// Laws of choosing
// ---------------------------------------------------------------------------
proof fn lemma_matching_names(names: Seq<Seq<char>>, query: Seq<char>, fuzzy: bool, i: int)
    requires
        0 <= i <= names.len(),
    ensures
        forall|k: int|
            0 <= k < matching_names(names, query, fuzzy, i).len() ==> {
                let at = #[trigger] matching_names(names, query, fuzzy, i)[k];
                0 <= at < i && is_match(names[at], query, fuzzy)
            },
        forall|j: int|
            0 <= j < i && is_match(#[trigger] names[j], query, fuzzy) ==> matching_names(
                names,
                query,
                fuzzy,
                i,
            ).contains(j),
    decreases i,
{
    if i > 0 {
        lemma_matching_names(names, query, fuzzy, i - 1);
        let earlier = matching_names(names, query, fuzzy, i - 1);
        let all = matching_names(names, query, fuzzy, i);
        assert forall|j: int|
            0 <= j < i && is_match(#[trigger] names[j], query, fuzzy) implies all.contains(j) by {
            if j < i - 1 {
                let k = choose|k: int| 0 <= k < earlier.len() && earlier[k] == j;
                assert(all[k] == j);
            } else {
                assert(all[all.len() - 1] == j);
            }
        }
    }
}

proof fn lemma_longest_is_listed(names: Seq<Seq<char>>, places: Seq<int>)
    requires
        places.len() > 0,
    ensures
        places.contains(longest(names, places)),
    decreases places.len(),
{
    if places.len() <= 1 {
        assert(places[0] == longest(names, places));
    } else {
        let earlier = places.drop_last();
        lemma_longest_is_listed(names, earlier);
        let best = longest(names, earlier);
        let k = choose|k: int| 0 <= k < earlier.len() && earlier[k] == best;
        assert(places[k] == best);
        assert(places[places.len() - 1] == places.last());
    }
}

/// A row is offered exactly where one of its names matches, or its display name
/// does in their place; and the spelling that is offered matches wherever one
/// does.
pub proof fn law_matching_names_are_offered(
    names: Seq<Seq<char>>,
    display_name: Option<Seq<char>>,
    query: Seq<char>,
    fuzzy: bool,
    prefer_long: bool,
)
    ensures
        ({
            let some_name = exists|j: int|
                0 <= j < names.len() && is_match(#[trigger] names[j], query, fuzzy);
            let by_display = names.len() > 0 && (display_name matches Some(display) && is_match(
                display,
                query,
                fuzzy,
            ));
            match chosen_name(names, display_name, query, fuzzy, prefer_long) {
                Some(i) => 0 <= i < names.len() && (if some_name {
                    is_match(names[i], query, fuzzy)
                } else {
                    by_display
                }),
                None => !some_name && !by_display,
            }
        }),
{
    let matching = matching_names(names, query, fuzzy, names.len() as int);
    lemma_matching_names(names, query, fuzzy, names.len() as int);
    if matching.len() > 0 {
        lemma_longest_is_listed(names, matching);
        assert(0 <= matching[0] < names.len() && is_match(names[matching[0]], query, fuzzy));
    } else if names.len() > 0 {
        lemma_longest_is_listed(names, all_places(names.len() as int));
    }
}

/// Where long names are preferred, no matching name is longer than the one that
/// is offered.
pub proof fn law_long_names_are_preferred(
    names: Seq<Seq<char>>,
    display_name: Option<Seq<char>>,
    query: Seq<char>,
    fuzzy: bool,
    j: int,
)
    requires
        0 <= j < names.len(),
        is_match(names[j], query, fuzzy),
    ensures
        chosen_name(names, display_name, query, fuzzy, true) matches Some(i) && byte_len(names[j])
            <= byte_len(names[i]),
{
    let matching = matching_names(names, query, fuzzy, names.len() as int);
    lemma_matching_names(names, query, fuzzy, names.len() as int);
    assert(matching.contains(j));
    lemma_longest_is_long(names, matching, j);
}

proof fn lemma_longest_is_long(names: Seq<Seq<char>>, places: Seq<int>, j: int)
    requires
        places.contains(j),
    ensures
        byte_len(names[j]) <= byte_len(names[longest(names, places)]),
    decreases places.len(),
{
    if places.len() > 1 {
        let earlier = places.drop_last();
        if earlier.contains(j) {
            lemma_longest_is_long(names, earlier, j);
        } else {
            let k = choose|k: int| 0 <= k < places.len() && places[k] == j;
            if k < earlier.len() {
                assert(earlier[k] == j);
            }
        }
    }
}

} // verus!
