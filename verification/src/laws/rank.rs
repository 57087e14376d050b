//! Laws of ranking: which of two rows comes first, seen from the list that was
//! ranked.
use vstd::prelude::*;

use super::text::{
    law_first_word_stands_between_spaces, law_joining_appends, law_prefixes,
    law_text_around_the_first_word, law_trimming_drops_the_spaces_around,
};
use crate::lookup::auto_execute::auto_kind;
use crate::query::{is_match, lowercase, match_of};
use crate::rank::acceptance::stamp_at;
use crate::rank::frecency::{
    follows, history_rows, next_count, offered_rest, offered_texts, HISTORY_LIMIT,
};
use crate::rank::history::{history_for, is_spelled, merged_rows, new_rows};
use crate::rank::order::{
    holds_duplicate, is_duplicate, key_before, law_ranking_is_stable, priority_score,
    priority_tenths, rank_order, rank_place, ranked_rows, ranking_for, row_key, row_keys, row_match,
    row_stamp, unit, without_duplicates, words_before, RankKey, Ranking,
};
use crate::runtime::{ResultView, SuggestionView};
use crate::text::{begins_with, first_word, is_space, joined, trimmed_end};

verus! {

/// Once `list` is ranked, its row `i` stands before its row `j`.
pub open spec fn comes_before(list: Seq<SuggestionView>, r: Ranking, i: int, j: int) -> bool {
    exists|order: Seq<int>, p: int, q: int|
        #![trigger order[p], order[q]]
        {
            &&& order.len() == list.len()
            &&& forall|k: int|
                0 <= k < list.len() ==> 0 <= #[trigger] order[k] < list.len() && ranked_rows(list, r)[k]
                    == list[order[k]]
            &&& forall|k: int, l: int|
                0 <= k < l < list.len() ==> #[trigger] order[k] != #[trigger] order[l]
            &&& 0 <= p < q < list.len()
            &&& order[p] == i
            &&& order[q] == j
        }
}

pub proof fn lemma_every_row_has_a_place(keys: Seq<RankKey>, n: int, i: int)
    requires
        0 <= i < n <= keys.len(),
    ensures
        exists|p: int| 0 <= p < n && #[trigger] rank_order(keys, n)[p] == i,
    decreases n,
{
    law_ranking_is_stable(keys, n - 1);
    law_ranking_is_stable(keys, n);
    let earlier = rank_order(keys, n - 1);
    let order = rank_order(keys, n);
    let k = rank_place(earlier, keys, keys[n - 1], 0);
    lemma_place_inside(earlier, keys, keys[n - 1], 0);
    if i == n - 1 {
        assert(order[k] == i);
    } else {
        lemma_every_row_has_a_place(keys, n - 1, i);
        let p = choose|p: int| 0 <= p < n - 1 && #[trigger] earlier[p] == i;
        if p < k {
            assert(order[p] == i);
        } else {
            assert(order[p + 1] == i);
        }
    }
}

proof fn lemma_place_inside(order: Seq<int>, keys: Seq<RankKey>, key: RankKey, i: int)
    requires
        0 <= i <= order.len(),
    ensures
        i <= rank_place(order, keys, key, i) <= order.len(),
    decreases order.len() - i,
{
    if i < order.len() {
        lemma_place_inside(order, keys, key, i + 1);
    }
}

proof fn lemma_smaller_key_comes_first(list: Seq<SuggestionView>, r: Ranking, i: int, j: int)
    requires
        0 <= i < list.len(),
        0 <= j < list.len(),
        key_before(row_key(list[i], r), row_key(list[j], r)) || (i < j && row_key(list[i], r)
            == row_key(list[j], r)),
    ensures
        comes_before(list, r, i, j),
{
    let keys = row_keys(list, r);
    let n = list.len() as int;
    law_ranking_is_stable(keys, n);
    lemma_every_row_has_a_place(keys, n, i);
    lemma_every_row_has_a_place(keys, n, j);
    let order = rank_order(keys, n);
    let p = choose|p: int| 0 <= p < n && #[trigger] order[p] == i;
    let q = choose|q: int| 0 <= q < n && #[trigger] order[q] == j;
    assert(keys[i] == row_key(list[i], r));
    assert(keys[j] == row_key(list[j], r));
    if q < p {
        assert(!key_before(keys[order[p]], keys[order[q]]));
        assert(false);
    }
    assert(p < q);
    assert forall|k: int| 0 <= k < list.len() implies 0 <= #[trigger] order[k] < list.len()
        && ranked_rows(list, r)[k] == list[order[k]] by {}
}

/// A row as it is compared when nothing but its name, kind and priority count.
pub open spec fn is_bare(row: SuggestionView) -> bool {
    &&& row.kind != auto_kind()
    &&& row.query_term is None
    &&& row.display_name is None
    &&& row.primary_name is None
}

/// Rows that were never accepted for this command, or acceptances are not used.
pub open spec fn is_unaccepted(row: SuggestionView, r: Ranking) -> bool {
    !r.use_acceptances || forall|k: int|
        0 <= k < r.acceptances.len() ==> !(#[trigger] r.acceptances[k].0 == r.root
            && r.acceptances[k].1 == row.name)
}

proof fn lemma_no_stamp(
    entries: Seq<(Seq<char>, Seq<char>, u64)>,
    command: Seq<char>,
    name: Seq<char>,
    i: int,
)
    requires
        0 <= i,
        forall|k: int|
            0 <= k < entries.len() ==> !(#[trigger] entries[k].0 == command && entries[k].1 == name),
    ensures
        stamp_at(entries, command, name, i) is None,
    decreases entries.len() - i,
{
    if i < entries.len() {
        assert(entries[i].0 != command || entries[i].1 != name);
        lemma_no_stamp(entries, command, name, i + 1);
    }
}

proof fn lemma_unaccepted(row: SuggestionView, r: Ranking)
    requires
        is_bare(row),
        is_unaccepted(row, r),
    ensures
        row_stamp(row, r) is None,
{
    if r.use_acceptances {
        lemma_no_stamp(r.acceptances, r.root, row.name, 0);
    }
}

/// While a word is being typed, the words before it and the word make up the
/// typed command; once a space follows, all words stand before the next.
pub proof fn law_the_prefix_holds_all_words_before(tokens: Seq<Seq<char>>, term: Seq<char>)
    ensures
        tokens.len() >= 2 && term.len() > 0 ==> words_before(tokens, term) + " "@ + tokens.last()
            == joined(tokens, " "@),
        tokens.len() == 1 && term.len() > 0 ==> words_before(tokens, term).len() == 0,
        term.len() == 0 ==> words_before(tokens, term) == joined(tokens, " "@),
{
    if tokens.len() == 0 {
        assert(joined(tokens, " "@) =~= Seq::empty());
    } else if tokens.len() >= 2 && term.len() > 0 {
        law_joining_appends(tokens.drop_last(), tokens.last(), " "@);
        assert(tokens.drop_last().push(tokens.last()) =~= tokens);
    }
}

/// `command` is `head`, white space that begins with a space, `word`, and nothing
/// or more behind white space.
pub open spec fn continues(command: Seq<char>, head: Seq<char>, word: Seq<char>) -> bool {
    exists|gap: Seq<char>, rest: Seq<char>|
        {
            &&& command == #[trigger] (head + " "@ + gap + word + rest)
            &&& forall|k: int| 0 <= k < gap.len() ==> is_space(#[trigger] gap[k])
            &&& rest.len() == 0 || is_space(rest[0])
        }
}

/// A word follows a beginning in a command exactly where the command is the
/// beginning, white space, the word and what white space parts from it.
pub proof fn law_following_words(command: Seq<char>, head: Seq<char>, word: Seq<char>)
    requires
        head.len() > 0,
        word.len() > 0,
        forall|k: int| 0 <= k < word.len() ==> !is_space(#[trigger] word[k]),
    ensures
        follows(command, head, word) <==> continues(command, head, word),
{
    reveal_strlit(" ");
    if continues(command, head, word) {
        let (gap, rest) = choose|gap: Seq<char>, rest: Seq<char>|
            {
                &&& command == #[trigger] (head + " "@ + gap + word + rest)
                &&& forall|k: int| 0 <= k < gap.len() ==> is_space(#[trigger] gap[k])
                &&& rest.len() == 0 || is_space(rest[0])
            };
        assert(command =~= head.push(' ') + (gap + word + rest));
        law_prefixes(command, head.push(' '), gap + word + rest);
        law_first_word_stands_between_spaces(gap, word, rest);
        assert(command.skip(head.len() as int + 1) =~= gap + word + rest);
    }
    if follows(command, head, word) {
        let tail = command.skip(head.len() as int + 1);
        law_prefixes(command, head.push(' '), tail);
        let (gap, rest) = law_text_around_the_first_word(tail);
        assert(command =~= head + " "@ + gap + word + rest);
    }
}

proof fn lemma_counted(history: Seq<Seq<char>>, head: Seq<char>, word: Seq<char>)
    ensures
        next_count(history, head, word) >= 0,
        forall|h: int|
            0 <= h < history.len() && follows(#[trigger] history[h], head, word) ==> next_count(
                history,
                head,
                word,
            ) >= 1,
        forall|h: int, g: int|
            0 <= h < g < history.len() && follows(#[trigger] history[h], head, word) && follows(
                #[trigger] history[g],
                head,
                word,
            ) ==> next_count(history, head, word) >= 2,
        (forall|h: int|
            0 <= h < history.len() ==> !follows(#[trigger] history[h], head, word)) ==> next_count(
            history,
            head,
            word,
        ) == 0,
    decreases history.len(),
{
    if history.len() > 0 {
        let rest = history.drop_last();
        lemma_counted(rest, head, word);
        assert forall|h: int|
            0 <= h < history.len() && follows(#[trigger] history[h], head, word) implies next_count(
            history,
            head,
            word,
        ) >= 1 by {
            if h < rest.len() {
                assert(rest[h] == history[h]);
            }
        }
        assert forall|h: int, g: int|
            0 <= h < g < history.len() && follows(#[trigger] history[h], head, word) && follows(
                #[trigger] history[g],
                head,
                word,
            ) implies next_count(history, head, word) >= 2 by {
            assert(rest[h] == history[h]);
            if g < rest.len() {
                assert(rest[g] == history[g]);
            }
        }
        if forall|h: int| 0 <= h < history.len() ==> !follows(#[trigger] history[h], head, word) {
            assert forall|h: int| 0 <= h < rest.len() implies !follows(
                #[trigger] rest[h],
                head,
                word,
            ) by {
                assert(rest[h] == history[h]);
            }
            assert(!follows(history[history.len() - 1], head, word));
        }
    }
}

proof fn lemma_first_of_word(word: Seq<char>)
    requires
        word.len() > 0,
        forall|k: int| 0 <= k < word.len() ==> !is_space(#[trigger] word[k]),
    ensures
        first_word(word) == word,
{
    let none = Seq::<char>::empty();
    law_first_word_stands_between_spaces(none, word, none);
    assert(none + word + none =~= word);
}

/// A word that followed the whole typed beginning at least twice ranks before one
/// that never did, where the two rows match alike and have the ordinary priority.
/// The typed beginning is `head`: all the words before the one being typed.
pub proof fn law_words_used_before_rank_higher(
    list: Seq<SuggestionView>,
    result: ResultView,
    tokens: Seq<Seq<char>>,
    history: Seq<Seq<char>>,
    acceptances: Seq<(Seq<char>, Seq<char>, u64)>,
    root: Seq<char>,
    alphabetical: bool,
    head: Seq<char>,
    i: int,
    j: int,
    g: int,
    h: int,
)
    requires
        0 <= i < list.len(),
        0 <= j < list.len(),
        tokens.len() >= 2,
        result.match_term.len() > 0,
        head.len() > 0,
        head + " "@ + tokens.last() == joined(tokens, " "@),
        is_bare(list[i]),
        is_bare(list[j]),
        list[i].priority == 50,
        list[j].priority == 50,
        list[i].name.len() > 0,
        list[j].name.len() > 0,
        forall|k: int| 0 <= k < list[i].name.len() ==> !is_space(#[trigger] list[i].name[k]),
        forall|k: int| 0 <= k < list[j].name.len() ==> !is_space(#[trigger] list[j].name[k]),
        match_of(list[i].name, result.match_term, true) == match_of(
            list[j].name,
            result.match_term,
            true,
        ),
        ({
            let r = ranking_for(result, tokens, history, acceptances, root, alphabetical);
            is_unaccepted(list[i], r) && is_unaccepted(list[j], r)
        }),
        0 <= g < h < history.len(),
        continues(history[g], head, list[i].name),
        continues(history[h], head, list[i].name),
        forall|k: int|
            0 <= k < history.len() ==> !continues(#[trigger] history[k], head, list[j].name),
    ensures
        comes_before(
            list,
            ranking_for(result, tokens, history, acceptances, root, alphabetical),
            i,
            j,
        ),
{
    reveal_strlit(" ");
    let r = ranking_for(result, tokens, history, acceptances, root, alphabetical);
    law_the_prefix_holds_all_words_before(tokens, result.match_term);
    let words = words_before(tokens, result.match_term);
    let space = " "@;
    assert((words + space + tokens.last()).len() == words.len() + 1 + tokens.last().len());
    assert((head + space + tokens.last()).len() == head.len() + 1 + tokens.last().len());
    assert(words =~= (words + space + tokens.last()).take(head.len() as int));
    assert(head =~= (head + space + tokens.last()).take(head.len() as int));
    assert(words == head);
    let word = list[i].name;
    law_following_words(history[g], head, word);
    law_following_words(history[h], head, word);
    lemma_first_of_word(word);
    lemma_counted(history, head, word);
    let other = list[j].name;
    lemma_first_of_word(other);
    assert forall|k: int| 0 <= k < history.len() implies !follows(#[trigger] history[k], head, other) by {
        law_following_words(history[k], head, other);
    }
    lemma_counted(history, head, other);
    lemma_unaccepted(list[i], r);
    lemma_unaccepted(list[j], r);
    lemma_scores(priority_tenths(50, next_count(history, head, word)), 500, None, None);
    assert(row_match(list[i], r.query) == row_match(list[j], r.query));
    lemma_smaller_key_comes_first(list, r, i, j);
}

proof fn lemma_scores(a: int, b: int, x: Option<u64>, y: Option<u64>)
    requires
        0 <= a <= 1000,
        0 <= b <= 1000,
    ensures
        priority_score(a, x) as i128 == priority_score(a, x),
        priority_score(b, y) as i128 == priority_score(b, y),
        x is None && y is None ==> (priority_score(a, x) > priority_score(b, y) <==> a > b),
{
    assert(unit() / 10 == 1_000_000_000_000);
}

/// A name that is the query ranks before every other, one that begins with the
/// query before those that only match loosely, and a match before none.
pub proof fn law_better_matches_rank_first(list: Seq<SuggestionView>, r: Ranking, i: int, j: int)
    requires
        0 <= i < list.len(),
        0 <= j < list.len(),
        is_bare(list[i]),
        is_bare(list[j]),
        r.query.len() > 0,
    ensures
        list[i].name == r.query && list[j].name != r.query ==> comes_before(list, r, i, j),
        begins_with(list[i].name, r.query) && !begins_with(list[j].name, r.query) && !begins_with(
            lowercase(list[j].name),
            lowercase(r.query),
        ) ==> comes_before(list, r, i, j),
        begins_with(lowercase(list[i].name), lowercase(r.query)) && !begins_with(
            list[j].name,
            r.query,
        ) && !begins_with(lowercase(list[j].name), lowercase(r.query)) ==> comes_before(
            list,
            r,
            i,
            j,
        ),
        match_of(list[i].name, r.query, true) is Some && match_of(list[j].name, r.query, true)
            is None ==> comes_before(list, r, i, j),
{
    let none = Seq::<char>::empty();
    law_prefixes(lowercase(list[j].name), lowercase(r.query), none);
    assert(lowercase(r.query) + none =~= lowercase(r.query));
    law_prefixes(list[j].name, r.query, none);
    assert(r.query + none =~= r.query);
    let a = row_key(list[i], r);
    let b = row_key(list[j], r);
    if key_before(a, b) {
        lemma_smaller_key_comes_first(list, r, i, j);
    }
}

/// Without history and acceptances, of two rows that match alike the one with the
/// higher priority comes first.
pub proof fn law_higher_priorities_rank_first(list: Seq<SuggestionView>, r: Ranking, i: int, j: int)
    requires
        0 <= i < list.len(),
        0 <= j < list.len(),
        is_bare(list[i]),
        is_bare(list[j]),
        is_unaccepted(list[i], r),
        is_unaccepted(list[j], r),
        r.history.len() == 0,
        r.query.len() == 0 || match_of(list[i].name, r.query, true) == match_of(
            list[j].name,
            r.query,
            true,
        ),
        0 <= list[j].priority < list[i].priority <= 100,
    ensures
        comes_before(list, r, i, j),
{
    lemma_unaccepted(list[i], r);
    lemma_unaccepted(list[j], r);
    lemma_scores(list[i].priority * 10, list[j].priority * 10, None, None);
    lemma_smaller_key_comes_first(list, r, i, j);
}

/// Each pair of command and name has one entry.
pub open spec fn is_kept_once(entries: Seq<(Seq<char>, Seq<char>, u64)>) -> bool {
    forall|a: int, b: int|
        0 <= a < b < entries.len() ==> !(#[trigger] entries[a].0 == #[trigger] entries[b].0
            && entries[a].1 == entries[b].1)
}

proof fn lemma_stamp(entries: Seq<(Seq<char>, Seq<char>, u64)>, a: int, i: int)
    requires
        is_kept_once(entries),
        0 <= i <= a < entries.len(),
    ensures
        stamp_at(entries, entries[a].0, entries[a].1, i) == Some(a),
    decreases a - i,
{
    if i < a {
        assert(!(entries[i].0 == entries[a].0 && entries[i].1 == entries[a].1));
        lemma_stamp(entries, a, i + 1);
    }
}

/// Without history, of two rows of one ordinary priority that match alike, an
/// accepted one comes before one that never was, and the one that was accepted
/// later before the other.
pub proof fn law_accepted_rows_rank_first(
    list: Seq<SuggestionView>,
    r: Ranking,
    i: int,
    j: int,
    a: int,
    b: int,
)
    requires
        0 <= i < list.len(),
        0 <= j < list.len(),
        is_bare(list[i]),
        is_bare(list[j]),
        list[i].name != "../"@,
        list[i].name != "↪"@,
        list[j].name != "../"@,
        list[j].name != "↪"@,
        r.use_acceptances,
        r.history.len() == 0,
        r.query.len() == 0 || match_of(list[i].name, r.query, true) == match_of(
            list[j].name,
            r.query,
            true,
        ),
        list[i].priority == list[j].priority,
        50 <= list[i].priority <= 75,
        is_kept_once(r.acceptances),
        0 <= a < r.acceptances.len(),
        r.acceptances[a].0 == r.root,
        r.acceptances[a].1 == list[i].name,
        r.acceptances[a].2 > 0,
        is_unaccepted(list[j], r) || (0 <= b < r.acceptances.len() && r.acceptances[b].0 == r.root
            && r.acceptances[b].1 == list[j].name && r.acceptances[b].2 < r.acceptances[a].2),
    ensures
        comes_before(list, r, i, j),
{
    lemma_stamp(r.acceptances, a, 0);
    let tenths = list[i].priority * 10;
    assert(row_stamp(list[i], r) == Some(r.acceptances[a].2));
    assert(unit() / 10 == 1_000_000_000_000);
    if is_unaccepted(list[j], r) {
        lemma_unaccepted(list[j], r);
        lemma_scores(tenths, tenths, row_stamp(list[i], r), None);
    } else {
        lemma_stamp(r.acceptances, b, 0);
        assert(row_stamp(list[j], r) == Some(r.acceptances[b].2));
        lemma_scores(tenths, tenths, row_stamp(list[i], r), row_stamp(list[j], r));
    }
    assert(row_match(list[i], r.query) == row_match(list[j], r.query) || r.query.len() == 0);
    lemma_smaller_key_comes_first(list, r, i, j);
}

/// Rows that are compared alike keep their order.
pub proof fn law_ties_keep_their_order(list: Seq<SuggestionView>, r: Ranking, i: int, j: int)
    requires
        0 <= i < j < list.len(),
        list[i].name == list[j].name,
        list[i].kind == list[j].kind,
        list[i].display_name == list[j].display_name,
        list[i].primary_name == list[j].primary_name,
        list[i].query_term == list[j].query_term,
        list[i].priority == list[j].priority,
    ensures
        comes_before(list, r, i, j),
{
    lemma_smaller_key_comes_first(list, r, i, j);
}

proof fn lemma_offered_stays(
    list: Seq<Seq<char>>,
    prefix: Seq<char>,
    query: Seq<char>,
    fuzzy: bool,
    i: int,
    k: int,
)
    requires
        0 <= i <= k < list.len(),
        offered_rest(list[k], prefix).len() > 0,
        is_match(offered_rest(list[k], prefix), query, fuzzy),
    ensures
        offered_texts(list, prefix, query, fuzzy, i).contains(offered_rest(list[k], prefix)),
        k == list.len() - 1 ==> offered_texts(list, prefix, query, fuzzy, i).len() > 0
            && offered_texts(list, prefix, query, fuzzy, i)[0] == offered_rest(list[k], prefix),
    decreases k - i,
{
    let later = offered_texts(list, prefix, query, fuzzy, i + 1);
    let all = offered_texts(list, prefix, query, fuzzy, i);
    let text = offered_rest(list[k], prefix);
    if i < k {
        lemma_offered_stays(list, prefix, query, fuzzy, i + 1, k);
        let p = choose|p: int| 0 <= p < later.len() && later[p] == text;
        assert(all[p] == text);
        assert(all.contains(text));
    } else if !later.contains(text) {
        assert(all.last() == text);
        assert(all.contains(text));
    }
    if k == list.len() - 1 && i == k {
        assert(later.len() == 0);
        assert(!later.contains(text));
    }
}

/// The rest of a command that begins with `prefix` is what stands behind it, up
/// to white space at the end.
pub proof fn law_the_rest_of_a_command(prefix: Seq<char>, text: Seq<char>, gap: Seq<char>)
    requires
        text.len() > 0,
        !is_space(text[0]),
        !is_space(text.last()),
        forall|k: int| 0 <= k < gap.len() ==> is_space(#[trigger] gap[k]),
    ensures
        offered_rest(prefix + text + gap, prefix) == text,
{
    let command = prefix + text + gap;
    assert(command =~= prefix + (text + gap));
    law_prefixes(command, prefix, text + gap);
    assert(command.skip(prefix.len() as int) =~= text + gap);
    let none = Seq::<char>::empty();
    law_trimming_drops_the_spaces_around(none, text, gap);
    assert(none + text + gap =~= text + gap);
    assert(none + text =~= text);
}

/// Every past command that begins with `prefix` and whose rest matches the query
/// is offered under its rest, and the newest is offered first.
pub proof fn law_matching_history_is_offered(
    list: Seq<Seq<char>>,
    prefix: Seq<char>,
    text: Seq<char>,
    gap: Seq<char>,
    query: Seq<char>,
    fuzzy: bool,
    k: int,
)
    requires
        0 <= k < list.len(),
        list[k] == prefix + text + gap,
        text.len() > 0,
        !is_space(text[0]),
        !is_space(text.last()),
        forall|k: int| 0 <= k < gap.len() ==> is_space(#[trigger] gap[k]),
        is_match(text, query, fuzzy),
    ensures
        offered_texts(list, prefix, query, fuzzy, 0).contains(text),
        offered_texts(list, prefix, query, fuzzy, 0).len() <= HISTORY_LIMIT ==> exists|p: int|
            0 <= p < history_rows(list, prefix, query, fuzzy).len() && (#[trigger] history_rows(
                list,
                prefix,
                query,
                fuzzy,
            )[p]).name == text,
        k == list.len() - 1 ==> history_rows(list, prefix, query, fuzzy).len() > 0 && history_rows(
            list,
            prefix,
            query,
            fuzzy,
        )[0].name == text && history_rows(list, prefix, query, fuzzy)[0].insert_value == Some(text),
{
    law_the_rest_of_a_command(prefix, text, gap);
    lemma_offered_stays(list, prefix, query, fuzzy, 0, k);
    let offered = offered_texts(list, prefix, query, fuzzy, 0);
    let out = history_rows(list, prefix, query, fuzzy);
    let p = choose|p: int| 0 <= p < offered.len() && offered[p] == text;
    if offered.len() <= HISTORY_LIMIT {
        assert(out[p].name == text);
    }
}

proof fn lemma_new_rows_hold(
    list: Seq<SuggestionView>,
    history: Seq<SuggestionView>,
    k: int,
)
    requires
        0 <= k < history.len(),
        forall|i: int|
            0 <= i < list.len() ==> (#[trigger] list[i]).name != history[k].name
                && !list[i].alias_names.contains(history[k].name) && list[i].primary_name != Some(
                history[k].name,
            ),
    ensures
        new_rows(list, history).contains(history[k]),
    decreases history.len(),
{
    let rest = history.drop_last();
    let out = new_rows(list, history);
    if k < rest.len() {
        assert(rest[k] == history[k]);
        lemma_new_rows_hold(list, rest, k);
        let earlier = new_rows(list, rest);
        let p = choose|p: int| 0 <= p < earlier.len() && earlier[p] == history[k];
        assert(out[p] == history[k]);
    } else {
        assert(!is_spelled(list, history.last().name));
        assert(out.last() == history[k]);
    }
}

/// While a word is typed behind others, every past command that begins with those
/// words and continues with a text that matches the word has a row of its own,
/// unless a row there spells the same name.
pub proof fn law_past_commands_complete_what_is_typed(
    result: ResultView,
    tokens: Seq<Seq<char>>,
    history: Seq<Seq<char>>,
    fuzzy: bool,
    head: Seq<char>,
    text: Seq<char>,
    k: int,
)
    requires
        tokens.len() >= 2,
        result.match_term.len() > 0,
        head.len() > 0,
        head + " "@ + tokens.last() == joined(tokens, " "@),
        0 <= k < history.len(),
        history[k] == head + " "@ + text,
        text.len() > 0,
        !is_space(text[0]),
        !is_space(text.last()),
        is_match(text, result.match_term, fuzzy),
        history.len() <= HISTORY_LIMIT,
    ensures
        exists|p: int|
            0 <= p < merged_rows(result, tokens, None, history, fuzzy).len() && {
                let row = #[trigger] merged_rows(result, tokens, None, history, fuzzy)[p];
                row.name == text || row.alias_names.contains(text) || row.primary_name == Some(text)
            },
{
    reveal_strlit(" ");
    law_the_prefix_holds_all_words_before(tokens, result.match_term);
    let words = words_before(tokens, result.match_term);
    let space = " "@;
    assert((words + space + tokens.last()).len() == words.len() + 1 + tokens.last().len());
    assert((head + space + tokens.last()).len() == head.len() + 1 + tokens.last().len());
    assert(words =~= (words + space + tokens.last()).take(head.len() as int));
    assert(head =~= (head + space + tokens.last()).take(head.len() as int));
    let prefix = head.push(' ');
    let term = result.match_term;
    let none = Seq::<char>::empty();
    assert(history[k] =~= prefix + text + none);
    lemma_few_offered(history, prefix, term, fuzzy, 0);
    law_matching_history_is_offered(history, prefix, text, none, term, fuzzy, k);
    let extra = history_rows(history, prefix, term, fuzzy);
    assert(history_for(tokens, term, None, history, fuzzy) == extra);
    let p = choose|p: int| 0 <= p < extra.len() && (#[trigger] extra[p]).name == text;
    let list = result.suggestions;
    let merged = merged_rows(result, tokens, None, history, fuzzy);
    if exists|i: int|
        0 <= i < list.len() && ((#[trigger] list[i]).name == text || list[i].alias_names.contains(text)
            || list[i].primary_name == Some(text)) {
        let i = choose|i: int|
            0 <= i < list.len() && ((#[trigger] list[i]).name == text
                || list[i].alias_names.contains(text) || list[i].primary_name == Some(text));
        assert(merged[i] == list[i]);
    } else {
        lemma_new_rows_hold(list, extra, p);
        let added = new_rows(list, extra);
        let q = choose|q: int| 0 <= q < added.len() && added[q] == extra[p];
        assert(merged[list.len() + q] == extra[p]);
    }
}

pub proof fn lemma_few_offered(
    list: Seq<Seq<char>>,
    prefix: Seq<char>,
    query: Seq<char>,
    fuzzy: bool,
    i: int,
)
    requires
        0 <= i <= list.len(),
    ensures
        offered_texts(list, prefix, query, fuzzy, i).len() <= list.len() - i,
    decreases list.len() - i,
{
    if i < list.len() {
        lemma_few_offered(list, prefix, query, fuzzy, i + 1);
    }
}

/// A past command is offered with a higher priority where its next word followed the
/// same beginning more than once.
pub proof fn law_repeated_commands_have_priority(
    list: Seq<Seq<char>>,
    prefix: Seq<char>,
    query: Seq<char>,
    fuzzy: bool,
    p: int,
)
    requires
        0 <= p < history_rows(list, prefix, query, fuzzy).len(),
    ensures
        ({
            let row = history_rows(list, prefix, query, fuzzy)[p];
            let times = next_count(list, trimmed_end(prefix), first_word(row.name));
            &&& times > 1 ==> row.priority == 75
            &&& times <= 1 ==> row.priority == 50
            &&& row.insert_value == Some(row.name)
        }),
{
}

/// What rows are matched against is the term that is matched, and where that is
/// empty, what is typed.
pub proof fn law_ranking_matches_the_term(
    result: ResultView,
    tokens: Seq<Seq<char>>,
    history: Seq<Seq<char>>,
    acceptances: Seq<(Seq<char>, Seq<char>, u64)>,
    root: Seq<char>,
    alphabetical: bool,
)
    ensures
        ({
            let r = ranking_for(result, tokens, history, acceptances, root, alphabetical);
            &&& result.match_term.len() > 0 ==> r.query == result.match_term
            &&& result.match_term.len() == 0 ==> r.query == result.search_term
            &&& r.use_acceptances == !alphabetical
            &&& root.len() > 0 ==> r.root == root
            &&& root.len() == 0 && tokens.len() > 0 ==> r.root == tokens[0]
            &&& r.history == history
            &&& r.acceptances == acceptances
        }),
{
}

proof fn lemma_kept_inside(list: Seq<SuggestionView>)
    ensures
        forall|i: int|
            0 <= i < without_duplicates(list).len() ==> list.contains(
                #[trigger] without_duplicates(list)[i],
            ),
    decreases list.len(),
{
    if list.len() > 0 {
        let rest = list.drop_last();
        lemma_kept_inside(rest);
        let earlier = without_duplicates(rest);
        let out = without_duplicates(list);
        assert forall|i: int| 0 <= i < out.len() implies list.contains(#[trigger] out[i]) by {
            if i < earlier.len() {
                assert(out[i] == earlier[i]);
                let k = choose|k: int| 0 <= k < rest.len() && rest[k] == earlier[i];
                assert(list[k] == out[i]);
            } else {
                assert(list[list.len() - 1] == out[i]);
            }
        }
    }
}

/// Of ranked rows that look the same the first one stays.
pub proof fn law_the_first_of_equal_rows_stays(
    a: Seq<SuggestionView>,
    row: SuggestionView,
    b: Seq<SuggestionView>,
)
    requires
        forall|i: int|
            0 <= i < a.len() ==> (#[trigger] a[i]).name != row.name || a[i].insert_value
                != row.insert_value || a[i].display_name != row.display_name || a[i].args_hint
                != row.args_hint,
    ensures
        without_duplicates(a + seq![row] + b).contains(row),
    decreases b.len(),
{
    let list = a + seq![row] + b;
    if b.len() == 0 {
        assert(list =~= a.push(row));
        assert(list.drop_last() =~= a);
        let earlier = without_duplicates(a);
        lemma_kept_inside(a);
        if holds_duplicate(earlier, row) {
            let i = choose|i: int| 0 <= i < earlier.len() && is_duplicate(#[trigger] earlier[i], row);
            assert(a.contains(earlier[i]));
            let k = choose|k: int| 0 <= k < a.len() && a[k] == earlier[i];
            assert(a[k].name == row.name);
        }
        assert(without_duplicates(list).last() == row);
    } else {
        law_the_first_of_equal_rows_stays(a, row, b.drop_last());
        assert(list.drop_last() =~= a + seq![row] + b.drop_last());
        let earlier = without_duplicates(list.drop_last());
        let i = choose|i: int| 0 <= i < earlier.len() && earlier[i] == row;
        assert(without_duplicates(list)[i] == row);
    }
}

} // verus!
