//! Laws of the orders that rows come in, and of how well names match.
use vstd::prelude::*;

use super::text::law_prefixes;
use crate::filegen::filter::{filter_pattern, inline_flags, FilterView};
use crate::filegen::list::{
    file_before, folded_name, is_hidden, is_small, law_entries_are_sorted, listed, spelled_before,
    DirEntry, Listing,
};
use crate::lookup::candidates::{chosen_name, matching_names, name_before};
use crate::process::{capped, MAX_STDOUT};
use crate::query::{
    char_units, fuzzy_score, gap_cost, is_match, lowercase, match_of, units, MatchKind, MatchScore,
};
use crate::rank::order::{is_better, row_match};
use crate::runtime::SuggestionView;
use crate::text::{before, before_from, begins_with, finishes_with, lower, lowered};

verus! {

proof fn lemma_before_common(p: Seq<char>, a: Seq<char>, b: Seq<char>, i: int)
    requires
        0 <= i <= p.len(),
    ensures
        before_from(p + a, p + b, i) == before_from(p + a, p + b, p.len() as int),
    decreases p.len() - i,
{
    if i < p.len() {
        assert((p + a)[i] == p[i]);
        assert((p + b)[i] == p[i]);
        lemma_before_common(p, a, b, i + 1);
    }
}

/// Dictionary order: a text comes before those that go on where it ends, and the
/// first character that differs decides between two others.
pub proof fn law_the_first_difference_decides(
    p: Seq<char>,
    x: char,
    a: Seq<char>,
    y: char,
    b: Seq<char>,
)
    ensures
        before(p, p + seq![y] + b),
        !before(p + seq![y] + b, p),
        x < y ==> before(p + seq![x] + a, p + seq![y] + b),
        x < y ==> !before(p + seq![y] + b, p + seq![x] + a),
        !before(p, p),
{
    let none = Seq::<char>::empty();
    let l = seq![x] + a;
    let r = seq![y] + b;
    assert(p + seq![x] + a =~= p + l);
    assert(p + seq![y] + b =~= p + r);
    assert(p + none =~= p);
    lemma_before_common(p, none, r, 0);
    lemma_before_common(p, r, none, 0);
    lemma_before_common(p, l, r, 0);
    lemma_before_common(p, r, l, 0);
    lemma_before_common(p, none, none, 0);
    assert((p + l)[p.len() as int] == x);
    assert((p + r)[p.len() as int] == y);
}

/// The letters from A to Z have small forms; other characters stay.
pub proof fn law_small_forms(c: char)
    ensures
        'A' <= c && c <= 'Z' ==> 'a' <= lower(c) && lower(c) <= 'z' && lower(c) as u32 - 'a' as u32
            == c as u32 - 'A' as u32,
        !('A' <= c && c <= 'Z') ==> lower(c) == c,
{
}

/// Subcommands and options are ordered by their letters whatever their case; only
/// between names that differ in nothing else does the case decide.
pub proof fn law_names_are_ordered_by_letters(a: Seq<char>, b: Seq<char>)
    ensures
        before(lowered(a), lowered(b)) ==> name_before(a, b),
        name_before(a, b) ==> before(lowered(a), lowered(b)) || lowered(a) == lowered(b),
        lowered(a) == lowered(b) ==> (name_before(a, b) <==> before(a, b)),
{
    crate::text::law_dictionary_order(lowered(a), lowered(b), lowered(b));
    crate::text::law_dictionary_order(lowered(b), lowered(b), lowered(b));
}

/// Files whose name begins with a dot come behind all others; otherwise the folded
/// names decide.
pub proof fn law_hidden_files_come_last(a: Seq<char>, b: Seq<char>)
    ensures
        is_hidden(a) <==> begins_with(a, "."@),
        !is_hidden(a) && is_hidden(b) ==> file_before(a, b) && !file_before(b, a),
        is_hidden(a) == is_hidden(b) && before(folded_name(a), folded_name(b)) ==> file_before(a, b),
{
    reveal_strlit(".");
    law_prefixes(a, "."@, Seq::empty());
    if a.len() > 0 && a[0] == '.' {
        assert(a.subrange(0, 1) =~= "."@);
    }
    crate::text::law_dictionary_order(folded_name(a), folded_name(b), folded_name(b));
    crate::text::law_dictionary_order(folded_name(b), folded_name(b), folded_name(b));
}

/// In the listing of a directory no hidden file stands before another one.
pub proof fn law_listings_end_with_hidden_files(
    filter: FilterView,
    listing: Listing,
    entries: Seq<DirEntry>,
    found: Seq<bool>,
    i: int,
    j: int,
)
    requires
        found.len() == entries.len(),
        0 <= i < j < listed(filter, listing, entries, found, entries.len() as int).len(),
    ensures
        ({
            let list = listed(filter, listing, entries, found, entries.len() as int);
            begins_with(list[i].0, "."@) ==> begins_with(list[j].0, "."@)
        }),
{
    let list = listed(filter, listing, entries, found, entries.len() as int);
    law_entries_are_sorted(filter, listing, entries, found, entries.len() as int);
    assert(!file_before(list[j].0, list[i].0));
    law_hidden_files_come_last(list[j].0, list[i].0);
    law_hidden_files_come_last(list[i].0, list[j].0);
}

/// How well a name matches: typed out exactly, in another case, as a beginning, as
/// a beginning in another case, or letter by letter; each is better than the next.
pub proof fn law_kinds_of_matches(name: Seq<char>, query: Seq<char>, fuzzy: bool)
    requires
        query.len() > 0,
    ensures
        name == query ==> match_of(name, query, fuzzy) is Some && match_of(
            name,
            query,
            fuzzy,
        )->Some_0.kind is ExactCase,
        name != query && lowercase(name) == lowercase(query) ==> match_of(name, query, fuzzy) is Some
            && match_of(name, query, fuzzy)->Some_0.kind is ExactInsensitive,
        lowercase(name) != lowercase(query) && begins_with(name, query) && name != query
            ==> match_of(name, query, fuzzy) is Some && match_of(name, query, fuzzy)->Some_0.kind
            is PrefixCase,
        match_of(name, query, fuzzy) matches Some(m) ==> (m.kind is Fuzzy ==> fuzzy && !begins_with(
            name,
            query,
        ) && !begins_with(lowercase(name), lowercase(query))),
        MatchKind::ExactCase.rank() < MatchKind::ExactInsensitive.rank(),
        MatchKind::ExactInsensitive.rank() < MatchKind::PrefixCase.rank(),
        MatchKind::PrefixCase.rank() < MatchKind::PrefixInsensitive.rank(),
        MatchKind::PrefixInsensitive.rank() < MatchKind::Fuzzy.rank(),
{
}

/// A row is as good as the better of its name and its display name.
pub proof fn law_rows_match_by_name_or_display(
    row: SuggestionView,
    query: Seq<char>,
    display: Seq<char>,
)
    requires
        row.query_term is None,
    ensures
        row.display_name is None ==> row_match(row, query) == match_of(row.name, query, true),
        row.display_name == Some(display) ==> {
            let a = match_of(row.name, query, true);
            let b = match_of(display, query, true);
            &&& row_match(row, query) is Some <==> a is Some || b is Some
            &&& row_match(row, query) == a || row_match(row, query) == b
            &&& a matches Some(x) ==> !is_better(x, row_match(row, query)->Some_0)
            &&& b matches Some(y) ==> !is_better(y, row_match(row, query)->Some_0)
        },
{
}

/// Of two matches the one of the better kind is better, and of one kind the one with
/// the higher score.
pub proof fn law_better_matches(a: MatchScore, b: MatchScore)
    ensures
        a.kind.rank() < b.kind.rank() ==> is_better(a, b),
        a.kind == b.kind ==> (is_better(a, b) <==> a.score > b.score),
        !(is_better(a, b) && is_better(b, a)),
{
}

proof fn lemma_gap_cost(places: Seq<int>)
    requires
        forall|i: int| 0 <= i < places.len() ==> #[trigger] places[i] >= 0,
    ensures
        gap_cost(places) >= 0,
    decreases places.len(),
{
    if places.len() > 0 {
        let rest = places.drop_last();
        assert forall|i: int| 0 <= i < rest.len() implies #[trigger] rest[i] >= 0 by {
            assert(rest[i] == places[i]);
        }
        lemma_gap_cost(rest);
        assert(places[places.len() - 1] >= 0);
    }
}

proof fn lemma_run_cost(places: Seq<int>)
    requires
        places.len() > 0,
        forall|i: int| 0 < i < places.len() ==> #[trigger] places[i] == places[0] + i,
    ensures
        gap_cost(places) == places[0],
    decreases places.len(),
{
    let rest = places.drop_last();
    if places.len() > 1 {
        assert forall|i: int| 0 < i < rest.len() implies #[trigger] rest[i] == rest[0] + i by {
            assert(rest[i] == places[i]);
        }
        lemma_run_cost(rest);
        let n = places.len() - 1;
        assert(places[n] == places[0] + n);
        if n > 1 {
            assert(places[n - 1] == places[0] + (n - 1));
        }
    } else {
        assert(gap_cost(rest) == 0);
    }
}

/// Letters found in a row cost only how far from the start they begin; places at
/// the beginnings of words never score less than others; and of two names the
/// shorter scores higher.
pub proof fn law_fuzzy_scores(places: Seq<int>, target: int, longer: int, search: int)
    requires
        places.len() > 0,
        forall|i: int| 0 <= i < places.len() ==> #[trigger] places[i] >= 0,
        0 <= search <= target < longer,
        longer <= 0x1000_0000,
    ensures
        (forall|i: int| 0 < i < places.len() ==> #[trigger] places[i] == places[0] + i) && places[0]
            <= 0x1000_0000 ==> fuzzy_score(places, true, target, search) == -places[0] - (target
            - search),
        fuzzy_score(places, true, target, search) >= fuzzy_score(places, false, target, search),
        gap_cost(places) <= 0x1000_0000 ==> fuzzy_score(places, true, longer, search) < fuzzy_score(
            places,
            true,
            target,
            search,
        ),
{
    lemma_gap_cost(places);
    if forall|i: int| 0 < i < places.len() ==> #[trigger] places[i] == places[0] + i {
        lemma_run_cost(places);
    }
}

/// The units of a text are those of its parts; a character of the first plane is
/// one unit, its code, and any other is two.
pub proof fn law_units_of_texts(a: Seq<char>, b: Seq<char>, c: char)
    ensures
        units(a + b) == units(a) + units(b),
        (c as u32) < 0x10000 ==> units(seq![c]) == seq![c as u16],
        (c as u32) >= 0x10000 ==> units(seq![c]).len() == 2,
    decreases b.len(),
{
    let none = Seq::<char>::empty();
    assert(seq![c].drop_last() =~= none);
    assert(units(none) =~= Seq::empty());
    assert(units(seq![c]) =~= char_units(c));
    if b.len() == 0 {
        assert(a + b =~= a);
        assert(units(a) + units(b) =~= units(a));
    } else {
        law_units_of_texts(a, b.drop_last(), c);
        assert((a + b).drop_last() =~= a + b.drop_last());
        assert((a + b).last() == b.last());
        assert(units(a + b) =~= units(a) + units(b));
    }
}

/// The first name that matches is offered, unless long names are preferred.
pub proof fn law_first_matching_names_are_offered(
    names: Seq<Seq<char>>,
    display_name: Option<Seq<char>>,
    query: Seq<char>,
    fuzzy: bool,
    k: int,
)
    requires
        0 <= k < names.len(),
        is_match(names[k], query, fuzzy),
        forall|j: int| 0 <= j < k ==> !is_match(#[trigger] names[j], query, fuzzy),
    ensures
        chosen_name(names, display_name, query, fuzzy, false) == Some(k),
{
    lemma_first_matching(names, query, fuzzy, names.len() as int, k);
}

proof fn lemma_first_matching(
    names: Seq<Seq<char>>,
    query: Seq<char>,
    fuzzy: bool,
    i: int,
    k: int,
)
    requires
        0 <= k < i <= names.len(),
        is_match(names[k], query, fuzzy),
        forall|j: int| 0 <= j < k ==> !is_match(#[trigger] names[j], query, fuzzy),
    ensures
        matching_names(names, query, fuzzy, i).len() > 0,
        matching_names(names, query, fuzzy, i)[0] == k,
    decreases i,
{
    if k < i - 1 {
        lemma_first_matching(names, query, fuzzy, i - 1, k);
    } else {
        lemma_none_matching(names, query, fuzzy, k);
    }
}

proof fn lemma_none_matching(names: Seq<Seq<char>>, query: Seq<char>, fuzzy: bool, i: int)
    requires
        0 <= i <= names.len(),
        forall|j: int| 0 <= j < i ==> !is_match(#[trigger] names[j], query, fuzzy),
    ensures
        matching_names(names, query, fuzzy, i).len() == 0,
    decreases i,
{
    if i > 0 {
        assert(!is_match(names[i - 1], query, fuzzy));
        lemma_none_matching(names, query, fuzzy, i - 1);
    }
}

/// What a child wrote is kept from the start, up to the limit.
pub proof fn law_output_is_cut(bytes: Seq<u8>)
    ensures
        capped(bytes).len() == if bytes.len() < MAX_STDOUT {
            bytes.len()
        } else {
            MAX_STDOUT as nat
        },
        forall|i: int| 0 <= i < capped(bytes).len() ==> #[trigger] capped(bytes)[i] == bytes[i],
{
}

proof fn lemma_spelled_common(p: Seq<char>, a: Seq<char>, b: Seq<char>, i: int)
    requires
        0 <= i <= p.len(),
    ensures
        spelled_before(p + a, p + b, i) == spelled_before(p + a, p + b, p.len() as int),
    decreases p.len() - i,
{
    if i < p.len() {
        assert((p + a)[i] == p[i]);
        assert((p + b)[i] == p[i]);
        lemma_spelled_common(p, a, b, i + 1);
    }
}

/// Between file names that differ in case alone a small letter comes before a
/// capital, and otherwise the first difference decides.
pub proof fn law_small_letters_come_first(
    p: Seq<char>,
    x: char,
    a: Seq<char>,
    y: char,
    b: Seq<char>,
)
    ensures
        x != y && is_small(x) && !is_small(y) ==> spelled_before(
            p + seq![x] + a,
            p + seq![y] + b,
            0,
        ),
        x != y && is_small(x) == is_small(y) ==> (spelled_before(
            p + seq![x] + a,
            p + seq![y] + b,
            0,
        ) <==> x < y),
        spelled_before(p, p + seq![y] + b, 0),
{
    let none = Seq::<char>::empty();
    let l = seq![x] + a;
    let r = seq![y] + b;
    assert(p + seq![x] + a =~= p + l);
    assert(p + seq![y] + b =~= p + r);
    assert(p + none =~= p);
    lemma_spelled_common(p, l, r, 0);
    lemma_spelled_common(p, none, r, 0);
    assert((p + l)[p.len() as int] == x);
    assert((p + r)[p.len() as int] == y);
}

/// The pattern of a filter is its source; flags that it knows are put before it.
pub proof fn law_patterns_keep_their_source(source: Seq<char>, flags: Seq<char>)
    requires
        source.len() > 0,
    ensures
        filter_pattern(None, Some(flags)) is None,
        filter_pattern(Some(source), None) == Some(source),
        filter_pattern(Some(source), Some(flags)) is Some,
        finishes_with(filter_pattern(Some(source), Some(flags))->Some_0, source),
        !flags.contains('i') && !flags.contains('m') && !flags.contains('s') ==> filter_pattern(
            Some(source),
            Some(flags),
        ) == Some(source),
        flags == seq!['i'] ==> filter_pattern(Some(source), Some(flags)) == Some("(?i)"@ + source),
{
    reveal_strlit("(?");
    reveal_strlit(")");
    reveal_strlit("(?i)");
    let none = Seq::<char>::empty();
    let inline = inline_flags(flags);
    super::text::law_suffixes(source, source, "(?"@ + inline + ")"@);
    super::text::law_suffixes(source, source, none);
    assert(none + source =~= source);
    assert("(?"@ + inline + ")"@ + source =~= ("(?"@ + inline + ")"@) + source);
    if !flags.contains('i') && !flags.contains('m') && !flags.contains('s') {
        assert(inline =~= none);
    }
    if flags == seq!['i'] {
        assert(flags[0] == 'i');
        assert(flags.contains('i'));
        assert(!flags.contains('m'));
        assert(!flags.contains('s'));
        assert(inline =~= seq!['i']);
        assert("(?"@ + inline + ")"@ =~= "(?i)"@);
    }
}

} // verus!
