//! The order of rows: rows that execute first, then the better match, then the
//! higher priority; rows that tie stay in their order.
use vstd::prelude::*;

use super::acceptance::{stamp_of, AcceptanceIndex};
use super::frecency::{firsts, next_count, Frecency};
use crate::lookup::auto_execute::auto_kind;
use crate::lookup::candidates::places;
use crate::query::{match_of, match_score, MatchScore};
use crate::runtime::{rows, CompleteResult, ResultView, Suggestion, SuggestionView};
use crate::text::{first_word, join, joined, same, same_optional, texts};

verus! {

// ---------------------------------------------------------------------------
// Priority
// ---------------------------------------------------------------------------
/// What a word's use in history is worth, in tenths: a second use lifts it to
/// 75, and up to ten uses count a tenth of a tenth each.
pub open spec fn history_tenths(count: int) -> int {
    if count == 0 {
        0
    } else if count == 1 {
        500
    } else if count < 10 {
        750 + count
    } else {
        760
    }
}

/// Computes [`history_tenths`].
pub fn history_priority_tenths(count: usize) -> (tenths: i64)
    ensures
        tenths == history_tenths(count as int),
{
    if count == 0 {
        0
    } else if count == 1 {
        500
    } else if count < 10 {
        750 + (count as i64)
    } else {
        760
    }
}

/// The priority of a row in tenths: its own between 0 and 100, or what history
/// makes of its first word.
pub open spec fn priority_tenths(priority: i64, count: int) -> int {
    let own = (if priority < 0 {
        0
    } else if priority > 100 {
        100
    } else {
        priority as int
    }) * 10;
    let history = history_tenths(count);
    if own < history {
        history
    } else {
        own
    }
}

/// Computes [`priority_tenths`].
pub fn effective_priority_tenths(priority: i64, count: usize) -> (tenths: i64)
    ensures
        tenths == priority_tenths(priority, count as int),
        0 <= tenths <= 1000,
{
    let own: i64 = if priority < 0 {
        0
    } else if priority > 100 {
        1000
    } else {
        priority * 10
    };
    let history = history_priority_tenths(count);
    if own < history {
        history
    } else {
        own
    }
}

/// One unit of priority. A millisecond of acceptance time is the smallest
/// fraction of it.
pub open spec fn unit() -> int {
    10_000_000_000_000
}

/// A priority in milliseconds of acceptance time. An acceptance lifts ordinary
/// priorities to 75 and adds its time, so later acceptances rank higher.
pub open spec fn priority_score(tenths: int, stamp: Option<u64>) -> int {
    match stamp {
        None => tenths * (unit() / 10),
        Some(time) => (if 500 <= tenths <= 750 {
            750
        } else {
            tenths
        }) * (unit() / 10) + time,
    }
}

/// Computes [`priority_score`].
pub fn effective_priority_score(tenths: i64, stamp: Option<u64>) -> (score: i128)
    requires
        0 <= tenths <= 1000,
    ensures
        score == priority_score(tenths as int, stamp),
{
    match stamp {
        None => (tenths as i128) * 1_000_000_000_000,
        Some(time) => {
            let lifted: i64 = if 500 <= tenths && tenths <= 750 {
                750
            } else {
                tenths
            };
            (lifted as i128) * 1_000_000_000_000 + (time as i128)
        },
    }
}

/// What ranking knows besides the rows.
pub struct Ranking {
    /// The commands of the shell history.
    pub history: Seq<Seq<char>>,
    /// The beginning of the command that has been typed.
    pub prefix: Seq<char>,
    pub query: Seq<char>,
    pub acceptances: Seq<(Seq<char>, Seq<char>, u64)>,
    pub root: Seq<char>,
    pub use_acceptances: bool,
}

/// When a row was accepted last, where acceptances count for it.
pub open spec fn row_stamp(row: SuggestionView, r: Ranking) -> Option<u64> {
    if !r.use_acceptances || row.kind == auto_kind() || row.name == "../"@ || row.name == "↪"@ {
        None
    } else {
        stamp_of(
            r.acceptances,
            r.root,
            match row.primary_name {
                Some(primary) => primary,
                None => row.name,
            },
        )
    }
}

/// The better of two matches.
pub open spec fn is_better(a: MatchScore, b: MatchScore) -> bool {
    a.kind.rank() < b.kind.rank() || (a.kind.rank() == b.kind.rank() && a.score > b.score)
}

/// The best match of a row, by its name or display name, against its term.
pub open spec fn row_match(row: SuggestionView, query: Seq<char>) -> Option<MatchScore> {
    let term = match row.query_term {
        Some(term) => term,
        None => query,
    };
    let by_name = match_of(row.name, term, true);
    let by_display = match row.display_name {
        Some(display) => match_of(display, term, true),
        None => None,
    };
    match (by_name, by_display) {
        (Some(a), Some(b)) => if is_better(b, a) {
            Some(b)
        } else {
            Some(a)
        },
        (None, Some(b)) => Some(b),
        (a, None) => a,
    }
}

/// Computes [`is_better`].
pub fn better_match(left: MatchScore, right: MatchScore) -> (yes: bool)
    ensures
        yes == is_better(left, right),
{
    left.bucket() < right.bucket() || (left.bucket() == right.bucket() && left.score > right.score)
}

/// Computes [`row_match`].
pub fn best_match(suggestion: &Suggestion, query: &str) -> (best: Option<MatchScore>)
    ensures
        best == row_match(suggestion@, query@),
{
    let term = match &suggestion.query_term {
        Some(term) => term.as_str(),
        None => query,
    };
    let by_name = match_score(&suggestion.name, term, true);
    let display = match &suggestion.display_name {
        Some(display) => display.as_str(),
        None => {
            return by_name;
        },
    };
    match (by_name, match_score(display, term, true)) {
        (Some(a), Some(b)) => {
            if better_match(b, a) {
                Some(b)
            } else {
                Some(a)
            }
        },
        (None, Some(b)) => Some(b),
        (a, None) => a,
    }
}

// ---------------------------------------------------------------------------
// Keys
// ---------------------------------------------------------------------------
/// What a row is ordered by. Lower keys come first.
#[derive(Clone, Copy, Debug)]
pub struct RankKey {
    /// 0 for rows that execute, else 1.
    pub class: u8,
    /// The kind of match, 5 for none.
    pub bucket: u8,
    pub score: i64,
    pub priority: i128,
}

/// Whether one key comes strictly before another.
pub open spec fn key_before(a: RankKey, b: RankKey) -> bool {
    if a.class != b.class {
        a.class < b.class
    } else if a.bucket != b.bucket {
        a.bucket < b.bucket
    } else if a.score != b.score {
        a.score > b.score
    } else {
        a.priority > b.priority
    }
}

/// The key of a row. Without a query the match does not count.
pub open spec fn row_key(row: SuggestionView, r: Ranking) -> RankKey {
    let matched = if r.query.len() == 0 {
        None
    } else {
        row_match(row, r.query)
    };
    let count = next_count(r.history, r.prefix, first_word(row.name));
    RankKey {
        class: if row.kind == auto_kind() {
            0
        } else {
            1
        },
        bucket: match matched {
            Some(found) => found.kind.rank() as u8,
            None => 5,
        },
        score: match matched {
            Some(found) => found.score,
            None => 0,
        },
        priority: priority_score(priority_tenths(row.priority, count), row_stamp(row, r)) as i128,
    }
}

fn comes_first(a: &RankKey, b: &RankKey) -> (yes: bool)
    ensures
        yes == key_before(*a, *b),
{
    if a.class != b.class {
        a.class < b.class
    } else if a.bucket != b.bucket {
        a.bucket < b.bucket
    } else if a.score != b.score {
        a.score > b.score
    } else {
        a.priority > b.priority
    }
}

/// The first place in an order, from `i` on, whose key comes after the given
/// one.
pub open spec fn rank_place(order: Seq<int>, keys: Seq<RankKey>, key: RankKey, i: int) -> int
    decreases order.len() - i,
{
    if 0 <= i < order.len() && !key_before(key, keys[order[i]]) {
        rank_place(order, keys, key, i + 1)
    } else {
        i
    }
}

/// The first `n` rows in the order of their keys; rows with the same key stay
/// in their order.
pub open spec fn rank_order(keys: Seq<RankKey>, n: int) -> Seq<int>
    decreases n,
{
    if n <= 0 {
        Seq::empty()
    } else {
        let earlier = rank_order(keys, n - 1);
        earlier.insert(rank_place(earlier, keys, keys[n - 1], 0), n - 1)
    }
}

/// Whether an order lists each of the first `n` rows once, sorted by key and
/// equal keys by place.
pub open spec fn is_ranked(order: Seq<int>, keys: Seq<RankKey>, n: int) -> bool {
    &&& order.len() == n
    &&& forall|i: int| 0 <= i < n ==> 0 <= #[trigger] order[i] < n
    &&& forall|i: int, j: int|
        #![trigger order[i], order[j]]
        0 <= i < j < n ==> order[i] != order[j] && !key_before(keys[order[j]], keys[order[i]]) && (
        !key_before(keys[order[i]], keys[order[j]]) ==> order[i] < order[j])
}

proof fn lemma_rank_place(order: Seq<int>, keys: Seq<RankKey>, key: RankKey, i: int)
    requires
        0 <= i <= order.len(),
    ensures
        i <= rank_place(order, keys, key, i) <= order.len(),
        forall|j: int|
            i <= j < rank_place(order, keys, key, i) ==> !key_before(key, keys[#[trigger] order[j]]),
        rank_place(order, keys, key, i) < order.len() ==> key_before(
            key,
            keys[order[rank_place(order, keys, key, i)]],
        ),
    decreases order.len() - i,
{
    if i < order.len() && !key_before(key, keys[order[i]]) {
        lemma_rank_place(order, keys, key, i + 1);
    }
}

/// Ranking is a stable sort: every row appears once, no row comes before one
/// with a lower key, and rows that tie keep their order.
pub proof fn law_ranking_is_stable(keys: Seq<RankKey>, n: int)
    requires
        0 <= n <= keys.len(),
    ensures
        is_ranked(rank_order(keys, n), keys, n),
    decreases n,
{
    if n > 0 {
        law_ranking_is_stable(keys, n - 1);
        let earlier = rank_order(keys, n - 1);
        let key = keys[n - 1];
        let k = rank_place(earlier, keys, key, 0);
        lemma_rank_place(earlier, keys, key, 0);
        let order = rank_order(keys, n);
        assert forall|i: int| 0 <= i < n implies 0 <= #[trigger] order[i] < n by {
            if i < k {
                assert(order[i] == earlier[i]);
            } else if i > k {
                assert(order[i] == earlier[i - 1]);
            }
        }
        assert forall|i: int, j: int|
            #![trigger order[i], order[j]]
            0 <= i < j < n implies order[i] != order[j] && !key_before(
            keys[order[j]],
            keys[order[i]],
        ) && (!key_before(keys[order[i]], keys[order[j]]) ==> order[i] < order[j]) by {
            if j == k {
                assert(order[i] == earlier[i]);
            } else if i == k {
                assert(order[j] == earlier[j - 1]);
                if j - 1 > k {
                    assert(!key_before(keys[earlier[j - 1]], keys[earlier[k]]));
                }
            } else {
                let a = if i < k { i } else { i - 1 };
                let b = if j < k { j } else { j - 1 };
                assert(order[i] == earlier[a]);
                assert(order[j] == earlier[b]);
            }
        }
    }
}

proof fn lemma_rank_place_is(order: Seq<int>, keys: Seq<RankKey>, key: RankKey, i: int, k: int)
    requires
        0 <= i <= k <= order.len(),
        forall|j: int| i <= j < k ==> !key_before(key, keys[#[trigger] order[j]]),
        k < order.len() ==> key_before(key, keys[order[k]]),
    ensures
        rank_place(order, keys, key, i) == k,
    decreases k - i,
{
    if i < k {
        assert(!key_before(key, keys[order[i]]));
        lemma_rank_place_is(order, keys, key, i + 1, k);
    }
}

/// Computes [`rank_order`] of all keys.
pub fn sort_by_rank(keys: &Vec<RankKey>) -> (order: Vec<usize>)
    ensures
        places(order@) == rank_order(keys@, keys@.len() as int),
        order@.len() == keys@.len(),
        forall|i: int| 0 <= i < order@.len() ==> (#[trigger] order@[i]) < keys@.len(),
{
    let mut order: Vec<usize> = Vec::new();
    let mut n: usize = 0;
    proof {
        assert(places(order@) =~= Seq::<int>::empty());
    }
    while n < keys.len()
        invariant
            n <= keys@.len(),
            places(order@) == rank_order(keys@, n as int),
            order@.len() == n,
            forall|i: int| 0 <= i < order@.len() ==> (#[trigger] order@[i]) < n,
        decreases keys@.len() - n,
    {
        let ghost done = places(order@);
        let key: RankKey = keys[n];
        proof {
            law_ranking_is_stable(keys@, n as int);
        }
        let mut low: usize = 0;
        let mut high: usize = n;
        while low < high
            invariant
                low <= high <= n,
                n < keys@.len(),
                done == places(order@),
                order@.len() == n,
                is_ranked(done, keys@, n as int),
                forall|i: int| 0 <= i < order@.len() ==> (#[trigger] order@[i]) < n,
                forall|j: int| 0 <= j < low ==> !key_before(key, keys@[#[trigger] done[j]]),
                forall|j: int| high <= j < n ==> key_before(key, keys@[#[trigger] done[j]]),
            decreases high - low,
        {
            let mid: usize = low + (high - low) / 2;
            proof {
                assert(done[mid as int] == order@[mid as int]);
            }
            if comes_first(&key, &keys[order[mid]]) {
                proof {
                    assert forall|j: int| mid <= j < n implies key_before(
                        key,
                        keys@[#[trigger] done[j]],
                    ) by {
                        if j > mid {
                            assert(!key_before(keys@[done[j]], keys@[done[mid as int]]));
                        }
                    }
                }
                high = mid;
            } else {
                proof {
                    assert forall|j: int| 0 <= j < mid + 1 implies !key_before(
                        key,
                        keys@[#[trigger] done[j]],
                    ) by {
                        if j < mid {
                            assert(!key_before(keys@[done[mid as int]], keys@[done[j]]));
                        }
                    }
                }
                low = mid + 1;
            }
        }
        proof {
            lemma_rank_place_is(done, keys@, key, 0, low as int);
        }
        order.insert(low, n);
        proof {
            assert(places(order@) =~= done.insert(low as int, n as int));
            assert forall|i: int| 0 <= i < order@.len() implies (#[trigger] order@[i]) < n + 1 by {
                assert(places(order@)[i] == order@[i]);
                if i < low {
                    assert(order@[i] == done[i]);
                } else if i > low {
                    assert(order@[i] == done[i - 1]);
                }
            }
        }
        n += 1;
    }
    order
}

// ---------------------------------------------------------------------------
// Ranking a result
// ---------------------------------------------------------------------------
/// The keys of rows.
pub open spec fn row_keys(list: Seq<SuggestionView>, r: Ranking) -> Seq<RankKey> {
    Seq::new(list.len(), |i: int| row_key(list[i], r))
}

/// The rows in the order of their keys.
pub open spec fn ranked_rows(list: Seq<SuggestionView>, r: Ranking) -> Seq<SuggestionView> {
    let order = rank_order(row_keys(list, r), list.len() as int);
    Seq::new(list.len(), |i: int| list[order[i]])
}

/// Whether two rows are the same to the user: description and kind do not
/// count.
pub open spec fn is_duplicate(a: SuggestionView, b: SuggestionView) -> bool {
    a.name == b.name && a.insert_value == b.insert_value && a.display_name == b.display_name
        && a.args_hint == b.args_hint
}

/// Whether a list holds a row that is the same to the user.
pub open spec fn holds_duplicate(list: Seq<SuggestionView>, row: SuggestionView) -> bool {
    exists|i: int| 0 <= i < list.len() && is_duplicate(#[trigger] list[i], row)
}

/// The rows without those that repeat an earlier one.
pub open spec fn without_duplicates(list: Seq<SuggestionView>) -> Seq<SuggestionView>
    decreases list.len(),
{
    if list.len() == 0 {
        Seq::empty()
    } else {
        let earlier = without_duplicates(list.drop_last());
        if holds_duplicate(earlier, list.last()) {
            earlier
        } else {
            earlier.push(list.last())
        }
    }
}

/// The rows of a result, ranked; short lists without repetitions.
pub open spec fn ranked_result(list: Seq<SuggestionView>, r: Ranking) -> Seq<SuggestionView> {
    let sorted = ranked_rows(list, r);
    if sorted.len() <= 50 {
        without_duplicates(sorted)
    } else {
        sorted
    }
}

/// The term that a result was matched with.
pub open spec fn matching_term_of(result: ResultView) -> Seq<char> {
    if result.match_term.len() == 0 {
        result.search_term
    } else {
        result.match_term
    }
}

/// Computes [`matching_term_of`].
pub fn matching_term(result: &CompleteResult) -> (term: String)
    ensures
        term@ == matching_term_of(result@),
{
    if result.match_term.as_str().is_empty() {
        result.search_term.clone()
    } else {
        result.match_term.clone()
    }
}

/// The words before the one being typed, with single spaces between.
pub open spec fn words_before(tokens: Seq<Seq<char>>, term: Seq<char>) -> Seq<char> {
    if tokens.len() == 0 || (tokens.len() == 1 && term.len() > 0) {
        Seq::empty()
    } else if term.len() == 0 {
        joined(tokens, " "@)
    } else {
        joined(tokens.drop_last(), " "@)
    }
}

/// Computes [`words_before`].
pub fn completion_prefix(tokens: &[String], search_term: &str) -> (prefix: String)
    ensures
        prefix@ == words_before(texts(tokens@), search_term@),
{
    if tokens.len() == 0 || (tokens.len() == 1 && !search_term.is_empty()) {
        return String::new();
    }
    if search_term.is_empty() {
        return join(tokens, " ");
    }
    let mut head: Vec<String> = Vec::new();
    let mut i: usize = 0;
    let last = tokens.len() - 1;
    while i < last
        invariant
            i <= last,
            last == tokens@.len() - 1,
            texts(head@) == texts(tokens@).take(i as int),
        decreases last - i,
    {
        let ghost had = head@;
        head.push(tokens[i].clone());
        proof {
            assert(texts(head@) =~= texts(had).push(tokens@[i as int]@));
            assert(texts(tokens@).take(i + 1) =~= texts(tokens@).take(i as int).push(
                texts(tokens@)[i as int],
            ));
        }
        i += 1;
    }
    proof {
        assert(texts(tokens@).drop_last() =~= texts(tokens@).take(last as int));
    }
    join(&head, " ")
}

/// What a result is ranked with. Without a root command the first word counts.
pub open spec fn ranking_for(
    result: ResultView,
    tokens: Seq<Seq<char>>,
    history: Seq<Seq<char>>,
    acceptances: Seq<(Seq<char>, Seq<char>, u64)>,
    root: Seq<char>,
    alphabetical: bool,
) -> Ranking {
    let query = matching_term_of(result);
    Ranking {
        history,
        prefix: words_before(tokens, query),
        query,
        acceptances,
        root: if root.len() > 0 || tokens.len() == 0 {
            root
        } else {
            tokens[0]
        },
        use_acceptances: !alphabetical,
    }
}

/// Computes [`row_key`].
fn key_of(
    row: &Suggestion,
    frecency: &Frecency,
    prefix: &str,
    query: &str,
    acceptance: &AcceptanceIndex,
    root: &str,
    use_acceptances: bool,
) -> (key: RankKey)
    requires
        frecency.valid(),
    ensures
        key == row_key(
            row@,
            (Ranking {
                history: firsts(frecency@),
                prefix: prefix@,
                query: query@,
                acceptances: acceptance@,
                root: root@,
                use_acceptances,
            }),
        ),
{
    let auto = same(&row.kind, "auto-execute");
    let matched: Option<MatchScore> = if query.is_empty() {
        None
    } else {
        best_match(row, query)
    };
    let stamp: Option<u64> = if !use_acceptances || auto || same(&row.name, "../") || same(
        &row.name,
        "↪",
    ) {
        None
    } else {
        match &row.primary_name {
            Some(primary) => acceptance.timestamp(root, primary),
            None => acceptance.timestamp(root, &row.name),
        }
    };
    let count = frecency.first_word_count(prefix, &row.name);
    let tenths = effective_priority_tenths(row.priority, count);
    let priority = effective_priority_score(tenths, stamp);
    let class: u8 = if auto {
        0
    } else {
        1
    };
    match matched {
        Some(found) => RankKey { class, bucket: found.bucket(), score: found.score, priority },
        None => RankKey { class, bucket: 5, score: 0, priority },
    }
}

fn duplicates(a: &Suggestion, b: &Suggestion) -> (yes: bool)
    ensures
        yes == is_duplicate(a@, b@),
{
    same(&a.name, &b.name) && same_optional(&a.insert_value, &b.insert_value) && same_optional(
        &a.display_name,
        &b.display_name,
    ) && same(&a.args_hint, &b.args_hint)
}

/// Computes [`without_duplicates`].
fn drop_duplicates(list: &Vec<Suggestion>) -> (out: Vec<Suggestion>)
    ensures
        rows(out@) == without_duplicates(rows(list@)),
{
    let mut out: Vec<Suggestion> = Vec::new();
    let mut i: usize = 0;
    proof {
        assert(rows(list@).take(0) =~= Seq::<SuggestionView>::empty());
        assert(rows(out@) =~= Seq::<SuggestionView>::empty());
    }
    while i < list.len()
        invariant
            i <= list@.len(),
            rows(out@) == without_duplicates(rows(list@).take(i as int)),
        decreases list@.len() - i,
    {
        proof {
            assert(rows(list@).take(i + 1).drop_last() =~= rows(list@).take(i as int));
            assert(rows(list@).take(i + 1).last() == list@[i as int]@);
        }
        let mut repeated = false;
        let mut j: usize = 0;
        while j < out.len()
            invariant
                j <= out@.len(),
                i < list@.len(),
                repeated == exists|k: int|
                    0 <= k < j && is_duplicate(#[trigger] rows(out@)[k], list@[i as int]@),
            decreases out@.len() - j,
        {
            proof {
                assert(rows(out@)[j as int] == out@[j as int]@);
            }
            if duplicates(&out[j], &list[i]) {
                repeated = true;
            }
            j += 1;
        }
        if !repeated {
            let ghost had = out@;
            out.push(list[i].clone());
            proof {
                assert(rows(out@) =~= rows(had).push(list@[i as int]@));
            }
        }
        i += 1;
    }
    proof {
        assert(rows(list@).take(list@.len() as int) =~= rows(list@));
    }
    out
}

/// Ranks the rows of a result. Alphabetical order leaves acceptances out; it
/// brings no order by name of its own, since rows arrive in theirs.
pub fn apply_with_acceptance(
    result: &mut CompleteResult,
    tokens: &[String],
    frecency: &Frecency,
    acceptance: &AcceptanceIndex,
    root_command: &str,
    alphabetical: bool,
)
    requires
        frecency.valid(),
    ensures
        final(result)@ == (ResultView {
            suggestions: ranked_result(
                old(result)@.suggestions,
                ranking_for(
                    old(result)@,
                    texts(tokens@),
                    firsts(frecency@),
                    acceptance@,
                    root_command@,
                    alphabetical,
                ),
            ),
            ..old(result)@
        }),
{
    let query = matching_term(result);
    let prefix = completion_prefix(tokens, &query);
    let root = if root_command.is_empty() && tokens.len() > 0 {
        proof {
            assert(texts(tokens@)[0] == tokens@[0]@);
        }
        tokens[0].clone()
    } else {
        root_command.to_owned()
    };
    let ghost r = ranking_for(
        result@,
        texts(tokens@),
        firsts(frecency@),
        acceptance@,
        root_command@,
        alphabetical,
    );
    let ghost list = rows(result.suggestions@);
    let mut keys: Vec<RankKey> = Vec::new();
    let mut i: usize = 0;
    while i < result.suggestions.len()
        invariant
            i <= result.suggestions@.len(),
            frecency.valid(),
            list == rows(result.suggestions@),
            r == (Ranking {
                history: firsts(frecency@),
                prefix: prefix@,
                query: query@,
                acceptances: acceptance@,
                root: root@,
                use_acceptances: !alphabetical,
            }),
            keys@ == row_keys(list, r).take(i as int),
        decreases result.suggestions@.len() - i,
    {
        let key = key_of(
            &result.suggestions[i],
            frecency,
            &prefix,
            &query,
            acceptance,
            &root,
            !alphabetical,
        );
        keys.push(key);
        proof {
            assert(row_keys(list, r).take(i + 1) =~= row_keys(list, r).take(i as int).push(
                row_keys(list, r)[i as int],
            ));
        }
        i += 1;
    }
    proof {
        assert(row_keys(list, r).take(list.len() as int) =~= row_keys(list, r));
    }
    let order = sort_by_rank(&keys);
    let mut sorted: Vec<Suggestion> = Vec::new();
    let mut j: usize = 0;
    let ghost stated = ranked_rows(list, r);
    while j < order.len()
        invariant
            j <= order@.len(),
            order@.len() == result.suggestions@.len(),
            list == rows(result.suggestions@),
            stated == ranked_rows(list, r),
            places(order@) == rank_order(row_keys(list, r), list.len() as int),
            forall|k: int|
                0 <= k < order@.len() ==> (#[trigger] order@[k]) < result.suggestions@.len(),
            rows(sorted@) == stated.take(j as int),
        decreases order@.len() - j,
    {
        let ghost had = sorted@;
        proof {
            assert(places(order@)[j as int] == order@[j as int]);
        }
        sorted.push(result.suggestions[order[j]].clone());
        proof {
            assert(rows(sorted@) =~= rows(had).push(stated[j as int]));
            assert(stated.take(j + 1) =~= stated.take(j as int).push(stated[j as int]));
        }
        j += 1;
    }
    proof {
        assert(stated.take(stated.len() as int) =~= stated);
        assert(stated.len() == sorted@.len());
    }
    if sorted.len() <= 50 {
        result.suggestions = drop_duplicates(&sorted);
    } else {
        result.suggestions = sorted;
    }
}

/// Ranks the rows of a result without acceptances.
pub fn apply(result: &mut CompleteResult, tokens: &[String], frecency: &Frecency)
    requires
        frecency.valid(),
    ensures
        final(result)@ == (ResultView {
            suggestions: ranked_result(
                old(result)@.suggestions,
                ranking_for(
                    old(result)@,
                    texts(tokens@),
                    firsts(frecency@),
                    Seq::empty(),
                    Seq::empty(),
                    false,
                ),
            ),
            ..old(result)@
        }),
{
    let none = AcceptanceIndex::from_entries(Vec::new());
    proof {
        reveal_strlit("");
        assert(""@ =~= Seq::<char>::empty());
        assert(none@ =~= Seq::<(Seq<char>, Seq<char>, u64)>::empty());
    }
    apply_with_acceptance(result, tokens, frecency, &none, "", false);
}

// ---------------------------------------------------------------------------
// Laws
// ---------------------------------------------------------------------------
/// A row that executes comes before every other row, whatever their priorities.
pub proof fn law_actions_rank_first(a: SuggestionView, b: SuggestionView, r: Ranking)
    requires
        a.kind == auto_kind(),
        b.kind != auto_kind(),
    ensures
        key_before(row_key(a, r), row_key(b, r)),
{
}

/// Of two rows with the same match and priority the one accepted later comes
/// first, and acceptances for other commands count nothing.
pub proof fn law_later_acceptance_ranks_higher(tenths: int, earlier: u64, later: u64)
    requires
        0 <= tenths <= 1000,
        earlier < later,
    ensures
        priority_score(tenths, Some(earlier)) < priority_score(tenths, Some(later)),
        500 <= tenths <= 750 ==> priority_score(tenths, None) <= priority_score(tenths, Some(earlier)),
{
    assert(unit() / 10 == 1_000_000_000_000);
}

/// History lifts a row by its use but never over an explicit higher priority:
/// a word used again ranks above 75 and below 77.
pub proof fn law_history_stays_between(priority: i64, count: int)
    requires
        count >= 2,
    ensures
        750 < priority_tenths(0, count) < 770,
        priority >= 77 ==> priority_tenths(priority, count) == if priority > 100 {
            1000
        } else {
            priority * 10
        },
{
}

proof fn lemma_without_duplicates(list: Seq<SuggestionView>)
    ensures
        ({
            let out = without_duplicates(list);
            &&& out.len() <= list.len()
            &&& forall|i: int, j: int|
                0 <= i < j < out.len() ==> !is_duplicate(#[trigger] out[i], #[trigger] out[j])
            &&& forall|i: int| 0 <= i < list.len() ==> holds_duplicate(out, #[trigger] list[i])
            &&& forall|i: int| 0 <= i < out.len() ==> list.contains(#[trigger] out[i])
        }),
    decreases list.len(),
{
    if list.len() > 0 {
        let rest = list.drop_last();
        lemma_without_duplicates(rest);
        let earlier = without_duplicates(rest);
        let out = without_duplicates(list);
        assert forall|i: int| 0 <= i < list.len() implies holds_duplicate(out, #[trigger] list[i]) by {
            if i < rest.len() {
                assert(rest[i] == list[i]);
                let k = choose|k: int| 0 <= k < earlier.len() && is_duplicate(#[trigger] earlier[k], rest[i]);
                assert(out[k] == earlier[k]);
                assert(is_duplicate(out[k], list[i]));
            } else if !holds_duplicate(earlier, list.last()) {
                assert(is_duplicate(out[earlier.len() as int], list[i]));
            }
        }
        assert forall|i: int| 0 <= i < out.len() implies list.contains(#[trigger] out[i]) by {
            if i < earlier.len() {
                let k = choose|k: int| 0 <= k < rest.len() && rest[k] == earlier[i];
                assert(list[k] == out[i]);
            } else {
                assert(list[list.len() - 1] == out[i]);
            }
        }
        assert forall|i: int, j: int| 0 <= i < j < out.len() implies !is_duplicate(
            #[trigger] out[i],
            #[trigger] out[j],
        ) by {
            if j == earlier.len() {
                assert(out[i] == earlier[i]);
                assert(!is_duplicate(earlier[i], list.last()));
            }
        }
    }
}

/// Ranking a short list leaves no two rows that are the same to the user, and
/// loses no row without keeping one that is the same.
pub proof fn law_duplicates_are_dropped(list: Seq<SuggestionView>, i: int)
    requires
        0 <= i < list.len(),
    ensures
        holds_duplicate(without_duplicates(list), list[i]),
        forall|a: int, b: int|
            0 <= a < b < without_duplicates(list).len() ==> !is_duplicate(
                #[trigger] without_duplicates(list)[a],
                #[trigger] without_duplicates(list)[b],
            ),
{
    lemma_without_duplicates(list);
}

} // verus!
