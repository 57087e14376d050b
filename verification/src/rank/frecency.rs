//! Shell history: how often and how recently commands were used, which word
//! follows which, and history rows.
use std::sync::Arc;
use vstd::hash_map::StringHashMap;
use vstd::hash_set::StringHashSet;
use vstd::prelude::*;

use crate::query::{is_match, matches_query};
use crate::runtime::{new_row, normal_priority, rows, Suggestion, SuggestionView};
use crate::text::{
    begins_with, behind_first_word, chars_of, concat, first_word, is_at, is_space,
    lemma_word_bounds, lemma_word_shift, share, text_range, texts, trim, trim_end, trim_start_at,
    trimmed, trimmed_end, word_bounds,
};

verus! {

/// The number of history rows considered for one request.
pub const HISTORY_LIMIT: usize = 10_000;

/// Shell history, with the counts that ranking asks for.
pub struct Frecency {
    /// How often a command, its first word or its first two words were used,
    /// and when last, in seconds.
    stats: StringHashMap<(u32, u64)>,
    /// The commands, oldest first.
    commands: Vec<(String, u64)>,
    /// The commands without their times.
    lines: Arc<Vec<String>>,
    /// How often a word followed a beginning of a command.
    next_words: StringHashMap<usize>,
}

/// The commands of a list without their times.
pub open spec fn command_texts(list: Seq<(String, u64)>) -> Seq<Seq<char>> {
    Seq::new(list.len(), |i: int| list[i].0@)
}

/// The commands of a list with their times.
pub open spec fn timed(list: Seq<(String, u64)>) -> Seq<(Seq<char>, u64)> {
    Seq::new(list.len(), |i: int| (list[i].0@, list[i].1))
}

// ---------------------------------------------------------------------------
// Uses
// ---------------------------------------------------------------------------
/// What one use of a command counts for: the command, its first word, and its
/// first two words.
pub open spec fn counted_as(command: Seq<char>) -> Seq<Seq<char>> {
    let first = first_word(command);
    let second = first_word(behind_first_word(command));
    if first.len() == 0 {
        seq![command]
    } else if second.len() == 0 {
        seq![command, first]
    } else {
        seq![command, first, first + " "@ + second]
    }
}

/// How often a key was counted by the uses of a command.
pub open spec fn times_in(keys: Seq<Seq<char>>, key: Seq<char>) -> int
    decreases keys.len(),
{
    if keys.len() == 0 {
        0
    } else {
        times_in(keys.drop_last(), key) + if keys.last() == key {
            1int
        } else {
            0int
        }
    }
}

/// How often a key was counted.
pub open spec fn uses(list: Seq<(Seq<char>, u64)>, key: Seq<char>) -> int
    decreases list.len(),
{
    if list.len() == 0 {
        0
    } else {
        uses(list.drop_last(), key) + times_in(counted_as(list.last().0), key)
    }
}

/// When a key was counted last, 0 where it never was.
pub open spec fn last_use(list: Seq<(Seq<char>, u64)>, key: Seq<char>) -> u64
    decreases list.len(),
{
    if list.len() == 0 {
        0
    } else {
        let earlier = last_use(list.drop_last(), key);
        if times_in(counted_as(list.last().0), key) > 0 && list.last().1 > earlier {
            list.last().1
        } else {
            earlier
        }
    }
}

/// The score of a key: its uses weigh ten thousand each, its last use a
/// thousandth of its time. A time beyond the `i64` range weighs nothing.
pub open spec fn score_of(list: Seq<(Seq<char>, u64)>, key: Seq<char>) -> int {
    let count = uses(list, key);
    let last = last_use(list, key);
    (if count < u32::MAX {
        count
    } else {
        u32::MAX as int
    }) * 10_000 + if last <= i64::MAX {
        last as int / 1_000
    } else {
        0
    }
}

// ---------------------------------------------------------------------------
// Next words
// ---------------------------------------------------------------------------
/// Whether, in a command, the word comes next behind the beginning `prefix`
/// and a space; behind the empty beginning the first word does.
pub open spec fn follows(command: Seq<char>, prefix: Seq<char>, word: Seq<char>) -> bool {
    word.len() > 0 && if prefix.len() == 0 {
        first_word(command) == word
    } else {
        begins_with(command, prefix.push(' ')) && first_word(command.skip(prefix.len() as int + 1)) == word
    }
}

/// How often the word came next behind a beginning.
pub open spec fn next_count(list: Seq<Seq<char>>, prefix: Seq<char>, word: Seq<char>) -> int
    decreases list.len(),
{
    if list.len() == 0 {
        0
    } else {
        next_count(list.drop_last(), prefix, word) + if follows(list.last(), prefix, word) {
            1int
        } else {
            0int
        }
    }
}

/// The key of a beginning and a next word. Words hold no white space, so the
/// two can be told apart.
spec fn pair_key(prefix: Seq<char>, word: Seq<char>) -> Seq<char> {
    word + seq![' '] + prefix
}

/// Whether a text holds no white space.
pub open spec fn is_wordlike(s: Seq<char>) -> bool {
    forall|i: int| 0 <= i < s.len() ==> !is_space(#[trigger] s[i])
}

proof fn lemma_pair_key(p1: Seq<char>, w1: Seq<char>, p2: Seq<char>, w2: Seq<char>)
    requires
        is_wordlike(w1),
        is_wordlike(w2),
        pair_key(p1, w1) == pair_key(p2, w2),
    ensures
        p1 == p2,
        w1 == w2,
{
    let a = pair_key(p1, w1);
    let b = pair_key(p2, w2);
    assert(a[w1.len() as int] == ' ');
    assert(b[w2.len() as int] == ' ');
    if w1.len() < w2.len() {
        assert(b[w1.len() as int] == w2[w1.len() as int]);
        assert(is_space(' '));
    } else if w2.len() < w1.len() {
        assert(a[w2.len() as int] == w1[w2.len() as int]);
        assert(is_space(' '));
    }
    assert(a.len() == b.len());
    assert(w1 =~= w2) by {
        assert forall|i: int| 0 <= i < w1.len() implies w1[i] == w2[i] by {
            assert(a[i] == w1[i]);
            assert(b[i] == w2[i]);
        }
    }
    assert(p1 =~= p2) by {
        assert forall|i: int| 0 <= i < p1.len() implies p1[i] == p2[i] by {
            assert(a[w1.len() + 1 + i] == p1[i]);
            assert(b[w2.len() + 1 + i] == p2[i]);
        }
    }
}

pub proof fn lemma_first_word(s: Seq<char>)
    ensures
        is_wordlike(first_word(s)),
        first_word(s).len() <= s.len(),
{
    lemma_word_bounds(s, 0);
    let from = trim_start_at(s, 0);
    lemma_word_bounds(s, from);
    let word = first_word(s);
    assert forall|i: int| 0 <= i < word.len() implies !is_space(#[trigger] word[i]) by {
        assert(word[i] == s[from + i]);
    }
}

/// How often the word came next, counting only the beginnings shorter than
/// `k` of the last command.
spec fn count_upto(
    list: Seq<Seq<char>>,
    command: Seq<char>,
    prefix: Seq<char>,
    word: Seq<char>,
    k: int,
) -> int {
    next_count(list, prefix, word) + if prefix.len() < k && follows(command, prefix, word) {
        1int
    } else {
        0int
    }
}

/// Whether the index holds the stated counts.
spec fn index_holds(
    index: Map<Seq<char>, usize>,
    list: Seq<Seq<char>>,
    command: Seq<char>,
    k: int,
) -> bool {
    forall|prefix: Seq<char>, word: Seq<char>|
        #![trigger pair_key(prefix, word)]
        is_wordlike(word) ==> {
            let count = count_upto(list, command, prefix, word, k);
            if index.contains_key(pair_key(prefix, word)) {
                index[pair_key(prefix, word)] == count
            } else {
                count == 0
            }
        }
}

proof fn lemma_next_count_bound(list: Seq<Seq<char>>, prefix: Seq<char>, word: Seq<char>)
    ensures
        0 <= next_count(list, prefix, word) <= list.len(),
    decreases list.len(),
{
    if list.len() > 0 {
        lemma_next_count_bound(list.drop_last(), prefix, word);
    }
}

proof fn lemma_only_words_follow(list: Seq<Seq<char>>, prefix: Seq<char>, word: Seq<char>)
    requires
        !is_wordlike(word),
    ensures
        next_count(list, prefix, word) == 0,
    decreases list.len(),
{
    if list.len() > 0 {
        lemma_only_words_follow(list.drop_last(), prefix, word);
        lemma_first_word(list.last());
        lemma_first_word(list.last().skip(prefix.len() as int + 1));
    }
}

/// Computes [`is_wordlike`].
fn holds_no_space(text: &str) -> (yes: bool)
    ensures
        yes == is_wordlike(text@),
{
    let s = chars_of(text);
    let mut i: usize = 0;
    while i < s.len()
        invariant
            i <= s@.len(),
            s@ == text@,
            forall|k: int| 0 <= k < i ==> !is_space(#[trigger] s@[k]),
        decreases s@.len() - i,
    {
        if s[i].is_whitespace() {
            proof {
                assert(is_space(text@[i as int]));
            }
            return false;
        }
        i += 1;
    }
    true
}

/// Counts one more next word, unless it is empty.
fn count_next(
    index: &mut StringHashMap<usize>,
    prefix: &str,
    word: &str,
    Ghost(list): Ghost<Seq<Seq<char>>>,
    Ghost(command): Ghost<Seq<char>>,
)
    requires
        is_wordlike(word@),
        index_holds(old(index)@, list, command, prefix@.len() as int),
        word@.len() > 0 ==> follows(command, prefix@, word@),
        forall|other: Seq<char>, next: Seq<char>|
            other.len() == prefix@.len() && #[trigger] follows(command, other, next) ==> other
                == prefix@ && next == word@,
        list.len() < usize::MAX,
    ensures
        index_holds(final(index)@, list, command, prefix@.len() as int + 1),
{
    let ghost start = index@;
    if !word.is_empty() {
        let mut key = word.to_owned();
        key.push(' ');
        key.push_str(prefix);
        proof {
            assert(key@ =~= pair_key(prefix@, word@));
            lemma_next_count_bound(list, prefix@, word@);
        }
        let count: usize = match index.get(&key) {
            Some(count) => *count,
            None => 0,
        };
        index.insert(key, count + 1);
    }
    proof {
        assert forall|other: Seq<char>, next: Seq<char>|
            #![trigger pair_key(other, next)]
            is_wordlike(next) implies {
            let count = count_upto(list, command, other, next, prefix@.len() as int + 1);
            if index@.contains_key(pair_key(other, next)) {
                index@[pair_key(other, next)] == count
            } else {
                count == 0
            }
        } by {
            let before = count_upto(list, command, other, next, prefix@.len() as int);
            if other == prefix@ && next == word@ && word@.len() > 0 {
            } else {
                if word@.len() > 0 && pair_key(other, next) == pair_key(prefix@, word@) {
                    lemma_pair_key(other, next, prefix@, word@);
                }
                assert(!(other.len() == prefix@.len() && follows(command, other, next)));
            }
        }
    }
}

/// Counts the next words of one command behind each of its beginnings.
fn record_next_words(
    index: &mut StringHashMap<usize>,
    command: &str,
    Ghost(list): Ghost<Seq<Seq<char>>>,
)
    requires
        command@.len() > 0,
        !is_space(command@[0]),
        index_holds(old(index)@, list, command@, 0),
        list.len() < usize::MAX,
    ensures
        index_holds(final(index)@, list.push(command@), Seq::empty(), 0),
{
    let s = chars_of(command);
    let n = s.len();
    let (a, b) = word_bounds(&s, 0);
    let first = text_range(&s, a, b);
    proof {
        lemma_first_word(s@);
        reveal_strlit("");
        assert(""@ =~= Seq::<char>::empty());
        assert forall|other: Seq<char>, next: Seq<char>|
            other.len() == 0 && #[trigger] follows(command@, other, next) implies other == ""@
            && next == first@ by {
            assert(other =~= ""@);
        }
    }
    count_next(index, "", &first, Ghost(list), Ghost(command@));
    let mut k: usize = 1;
    while k < n
        invariant
            1 <= k <= n,
            n == s@.len(),
            s@ == command@,
            list.len() < usize::MAX,
            index_holds(index@, list, command@, k as int),
        decreases n - k,
    {
        if s[k] == ' ' {
            let prefix = text_range(&s, 0, k);
            let (a, b) = word_bounds(&s, k + 1);
            let word = text_range(&s, a, b);
            proof {
                lemma_word_shift(s@, k + 1, k + 1);
                let tail = s@.skip(k + 1);
                lemma_word_bounds(tail, 0);
                lemma_word_shift(s@, k + 1, a as int);
                assert(word@ =~= first_word(tail)) by {
                    lemma_word_bounds(tail, trim_start_at(tail, 0));
                }
                lemma_first_word(tail);
                lemma_beginning(s@, k as int);
                assert(prefix@ =~= s@.take(k as int));
                assert forall|other: Seq<char>, next: Seq<char>|
                    other.len() == prefix@.len() && #[trigger] follows(
                        command@,
                        other,
                        next,
                    ) implies other == prefix@ && next == word@ by {
                    assert(s@.subrange(0, other.len() as int + 1) == other.push(' '));
                    assert(other =~= s@.take(k as int)) by {
                        assert forall|i: int| 0 <= i < other.len() implies other[i] == s@[i] by {
                            assert(other.push(' ')[i] == s@.subrange(0, other.len() as int + 1)[i]);
                        }
                    }
                }
            }
            count_next(index, &prefix, &word, Ghost(list), Ghost(command@));
        } else {
            proof {
                assert forall|other: Seq<char>, next: Seq<char>|
                    #![trigger pair_key(other, next)]
                    is_wordlike(next) implies count_upto(list, command@, other, next, k + 1)
                    == count_upto(list, command@, other, next, k as int) by {
                    if other.len() == k && follows(command@, other, next) {
                        assert(other.push(' ')[k as int] == s@.subrange(0, other.len() as int + 1)[k as int]);
                    }
                }
            }
        }
        k += 1;
    }
    proof {
        let longer = list.push(command@);
        assert(longer.drop_last() =~= list);
        assert forall|other: Seq<char>, next: Seq<char>|
            #![trigger pair_key(other, next)]
            is_wordlike(next) implies count_upto(longer, Seq::empty(), other, next, 0)
            == count_upto(list, command@, other, next, n as int) by {
            if follows(command@, other, next) {
                assert(other.len() < n);
            }
        }
    }
}

proof fn lemma_beginning(s: Seq<char>, k: int)
    requires
        0 < k < s.len(),
        s[k] == ' ',
    ensures
        begins_with(s, s.take(k).push(' ')),
{
    assert(s.subrange(0, k + 1) =~= s.take(k).push(' '));
}

// ---------------------------------------------------------------------------
// Statistics
// ---------------------------------------------------------------------------
/// The statistics of a key with `times` more counts than the uses of the list,
/// the last at `time`.
spec fn stat_with(
    list: Seq<(Seq<char>, u64)>,
    done: Seq<Seq<char>>,
    time: u64,
    key: Seq<char>,
) -> (int, u64) {
    let earlier = last_use(list, key);
    (
        uses(list, key) + times_in(done, key),
        if times_in(done, key) > 0 && time > earlier {
            time
        } else {
            earlier
        },
    )
}

/// Whether the statistics hold the uses of the list and the counts `done` of
/// one more command.
spec fn stats_hold(
    stats: Map<Seq<char>, (u32, u64)>,
    list: Seq<(Seq<char>, u64)>,
    done: Seq<Seq<char>>,
    time: u64,
) -> bool {
    forall|key: Seq<char>|
        #![trigger stats.contains_key(key)]
        {
            let (count, last) = stat_with(list, done, time, key);
            if stats.contains_key(key) {
                &&& stats[key].0 == if count < u32::MAX {
                    count
                } else {
                    u32::MAX as int
                }
                &&& stats[key].1 == last
            } else {
                count == 0 && last == 0
            }
        }
}

proof fn lemma_times_bound(keys: Seq<Seq<char>>, key: Seq<char>)
    ensures
        times_in(keys, key) >= 0,
    decreases keys.len(),
{
    if keys.len() > 0 {
        lemma_times_bound(keys.drop_last(), key);
    }
}

proof fn lemma_uses_bound(list: Seq<(Seq<char>, u64)>, key: Seq<char>)
    ensures
        uses(list, key) >= 0,
        uses(list, key) == 0 ==> last_use(list, key) == 0,
    decreases list.len(),
{
    if list.len() > 0 {
        lemma_uses_bound(list.drop_last(), key);
        lemma_times_bound(counted_as(list.last().0), key);
    }
}

/// Counts a key once more.
fn bump(
    stats: &mut StringHashMap<(u32, u64)>,
    key: &str,
    time: u64,
    Ghost(list): Ghost<Seq<(Seq<char>, u64)>>,
    Ghost(done): Ghost<Seq<Seq<char>>>,
)
    requires
        stats_hold(old(stats)@, list, done, time),
    ensures
        stats_hold(final(stats)@, list, done.push(key@), time),
{
    let ghost start = stats@;
    let (count, last): (u32, u64) = match stats.get(key) {
        Some(entry) => *entry,
        None => (0, 0),
    };
    let count: u32 = if count < u32::MAX {
        count + 1
    } else {
        count
    };
    let last: u64 = if time > last {
        time
    } else {
        last
    };
    stats.insert(key.to_owned(), (count, last));
    proof {
        let more = done.push(key@);
        assert(more.drop_last() =~= done);
        assert forall|other: Seq<char>| #![trigger stats@.contains_key(other)] {
            let (c, l) = stat_with(list, more, time, other);
            if stats@.contains_key(other) {
                &&& stats@[other].0 == if c < u32::MAX {
                    c
                } else {
                    u32::MAX as int
                }
                &&& stats@[other].1 == l
            } else {
                c == 0 && l == 0
            }
        } by {
            assert(start.contains_key(other) || !start.contains_key(other));
            lemma_times_bound(done, other);
            lemma_uses_bound(list, other);
        }
    }
}

/// Counts the uses of one more command.
fn bump_command(
    stats: &mut StringHashMap<(u32, u64)>,
    command: &str,
    time: u64,
    Ghost(list): Ghost<Seq<(Seq<char>, u64)>>,
)
    requires
        stats_hold(old(stats)@, list, Seq::empty(), 0),
    ensures
        stats_hold(final(stats)@, list.push((command@, time)), Seq::empty(), 0),
{
    let ghost none = Seq::<Seq<char>>::empty();
    proof {
        assert forall|key: Seq<char>| #![trigger stats@.contains_key(key)] stat_with(
            list,
            none,
            time,
            key,
        ) == stat_with(list, none, 0, key) by {}
        assert(stats_hold(stats@, list, none, time));
    }
    bump(stats, command, time, Ghost(list), Ghost(none));
    let ghost mut done = none.push(command@);
    let s = chars_of(command);
    let (a, b) = word_bounds(&s, 0);
    proof {
        lemma_word_bounds(s@, 0);
    }
    if a < b {
        let first = text_range(&s, a, b);
        bump(stats, &first, time, Ghost(list), Ghost(done));
        proof {
            done = done.push(first@);
        }
        let (c, d) = word_bounds(&s, b);
        proof {
            let tail = s@.skip(b as int);
            lemma_word_shift(s@, b as int, b as int);
            lemma_word_bounds(tail, 0);
            lemma_word_shift(s@, b as int, c as int);
            assert(behind_first_word(s@) == tail);
            assert(s@.subrange(c as int, d as int) =~= first_word(tail)) by {
                lemma_word_bounds(tail, trim_start_at(tail, 0));
            }
        }
        if c < d {
            let second = text_range(&s, c, d);
            let with_space = concat(&first, " ");
            let two = concat(&with_space, &second);
            bump(stats, &two, time, Ghost(list), Ghost(done));
            proof {
                done = done.push(two@);
            }
        }
    }
    proof {
        assert(done =~= counted_as(command@));
        let longer = list.push((command@, time));
        assert(longer.drop_last() =~= list);
        assert forall|key: Seq<char>| #![trigger stats@.contains_key(key)] stat_with(
            longer,
            none,
            0,
            key,
        ) == stat_with(list, done, time, key) by {}
    }
}

// ---------------------------------------------------------------------------
// The store
// ---------------------------------------------------------------------------
/// The commands that a history keeps: trimmed, without empty ones.
pub open spec fn kept_commands(list: Seq<(Seq<char>, u64)>) -> Seq<(Seq<char>, u64)>
    decreases list.len(),
{
    if list.len() == 0 {
        Seq::empty()
    } else {
        let command = trimmed(list.last().0);
        if command.len() > 0 {
            kept_commands(list.drop_last()).push((command, list.last().1))
        } else {
            kept_commands(list.drop_last())
        }
    }
}

/// The first parts of pairs.
pub open spec fn firsts(list: Seq<(Seq<char>, u64)>) -> Seq<Seq<char>> {
    Seq::new(list.len(), |i: int| list[i].0)
}

impl View for Frecency {
    type V = Seq<(Seq<char>, u64)>;

    closed spec fn view(&self) -> Seq<(Seq<char>, u64)> {
        timed(self.commands@)
    }
}

pub proof fn lemma_trimmed(s: Seq<char>)
    ensures
        trimmed(s).len() > 0 ==> !is_space(trimmed(s)[0]),
{
    lemma_word_bounds(s, 0);
    let from = trim_start_at(s, 0);
    lemma_trim_end(s, from, s.len() as int);
    if trimmed(s).len() > 0 {
        assert(trimmed(s)[0] == s[from]);
    }
}

proof fn lemma_trim_end(s: Seq<char>, from: int, to: int)
    requires
        0 <= from <= to <= s.len(),
    ensures
        from <= crate::text::trim_end_at(s, from, to) <= to,
    decreases to - from,
{
    if from < to && is_space(s[to - 1]) {
        lemma_trim_end(s, from, to - 1);
    }
}

impl Frecency {
    /// Whether the indexes agree with the commands.
    pub closed spec fn valid(&self) -> bool {
        &&& stats_hold(self.stats@, self@, Seq::empty(), 0)
        &&& index_holds(self.next_words@, firsts(self@), Seq::empty(), 0)
        &&& texts(self.lines@) == firsts(self@)
    }

    /// History from a list of commands with their times, oldest first.
    pub fn from_commands(commands: Vec<(String, u64)>) -> (frecency: Frecency)
        ensures
            frecency@ == kept_commands(timed(commands@)),
            frecency.valid(),
    {
        let mut stats: StringHashMap<(u32, u64)> = StringHashMap::new();
        let mut next_words: StringHashMap<usize> = StringHashMap::new();
        let mut stored: Vec<(String, u64)> = Vec::new();
        let mut lines: Vec<String> = Vec::new();
        let ghost given = timed(commands@);
        let mut i: usize = 0;
        proof {
            assert(given.take(0) =~= Seq::<(Seq<char>, u64)>::empty());
            assert(timed(stored@) =~= Seq::<(Seq<char>, u64)>::empty());
            assert(firsts(timed(stored@)) =~= Seq::<Seq<char>>::empty());
            assert(texts(lines@) =~= Seq::<Seq<char>>::empty());
        }
        while i < commands.len()
            invariant
                i <= commands@.len(),
                given == timed(commands@),
                timed(stored@) == kept_commands(given.take(i as int)),
                stored@.len() <= i,
                stats_hold(stats@, timed(stored@), Seq::empty(), 0),
                index_holds(next_words@, firsts(timed(stored@)), Seq::empty(), 0),
                texts(lines@) == firsts(timed(stored@)),
            decreases commands@.len() - i,
        {
            let command = trim(&commands[i].0);
            let time: u64 = commands[i].1;
            proof {
                assert(given.take(i + 1).drop_last() =~= given.take(i as int));
                assert(given.take(i + 1).last() == (commands@[i as int].0@, time));
                lemma_trimmed(commands@[i as int].0@);
            }
            if !command.as_str().is_empty() {
                let ghost done = timed(stored@);
                bump_command(&mut stats, &command, time, Ghost(done));
                proof {
                    assert forall|prefix: Seq<char>, word: Seq<char>|
                        #![trigger pair_key(prefix, word)]
                        is_wordlike(word) implies count_upto(
                        firsts(done),
                        command@,
                        prefix,
                        word,
                        0,
                    ) == count_upto(firsts(done), Seq::empty(), prefix, word, 0) by {}
                }
                record_next_words(&mut next_words, &command, Ghost(firsts(done)));
                let ghost had = lines@;
                lines.push(command.clone());
                stored.push((command, time));
                proof {
                    assert(timed(stored@) =~= done.push((command@, time)));
                    assert(firsts(timed(stored@)) =~= firsts(done).push(command@));
                    assert(texts(lines@) =~= texts(had).push(command@));
                }
            }
            i += 1;
        }
        proof {
            assert(given.take(given.len() as int) =~= given);
        }
        Frecency { stats, commands: stored, lines: Arc::new(lines), next_words }
    }

    /// The commands, shared.
    pub fn command_lines(&self) -> (lines: Arc<Vec<String>>)
        requires
            self.valid(),
        ensures
            texts(lines@) == firsts(self@),
    {
        share(&self.lines)
    }

    /// The score of a command, or of its first one or two words.
    pub fn score(&self, key: &str) -> (score: i64)
        requires
            self.valid(),
        ensures
            score == score_of(self@, key@),
    {
        proof {
            lemma_uses_bound(self@, key@);
            assert(self.stats@.contains_key(key@) || !self.stats@.contains_key(key@));
        }
        match self.stats.get(key) {
            None => 0,
            Some(entry) => {
                let (count, last) = *entry;
                let recent: i64 = if last <= 0x7fff_ffff_ffff_ffff {
                    (last / 1_000) as i64
                } else {
                    0
                };
                (count as i64) * 10_000 + recent
            },
        }
    }

    /// How often a word came next behind a beginning. A text with white space in
    /// it is no word, and never did.
    pub fn next_word_count(&self, prefix: &str, word: &str) -> (count: usize)
        requires
            self.valid(),
        ensures
            count == next_count(firsts(self@), prefix@, word@),
    {
        if !holds_no_space(word) {
            proof {
                lemma_only_words_follow(firsts(self@), prefix@, word@);
            }
            return 0;
        }
        let mut key = word.to_owned();
        key.push(' ');
        key.push_str(prefix);
        proof {
            assert(key@ =~= pair_key(prefix@, word@));
        }
        match self.next_words.get(&key) {
            Some(count) => *count,
            None => 0,
        }
    }

    /// How often the first word of a text came next behind a beginning.
    pub fn first_word_count(&self, prefix: &str, value: &str) -> (count: usize)
        requires
            self.valid(),
        ensures
            count == next_count(firsts(self@), prefix@, first_word(value@)),
    {
        proof {
            lemma_first_word(value@);
        }
        let word = crate::text::first_word_text(value);
        self.next_word_count(prefix, &word)
    }
}

impl Default for Frecency {
    fn default() -> (frecency: Frecency)
        ensures
            frecency@.len() == 0,
            frecency.valid(),
    {
        Frecency::from_commands(Vec::new())
    }
}

// ---------------------------------------------------------------------------
// History rows
// ---------------------------------------------------------------------------
/// The priority of a history row by how often its first word was used.
pub open spec fn history_base(count: int) -> i64 {
    if count > 1 {
        75
    } else {
        50
    }
}

/// Computes [`history_base`].
pub fn history_priority_base(count: usize) -> (priority: i64)
    ensures
        priority == history_base(count as int),
{
    if count > 1 {
        75
    } else {
        50
    }
}

/// A history row.
pub open spec fn history_row(text: Seq<char>, count: int) -> SuggestionView {
    SuggestionView {
        insert_value: Some(text),
        priority: normal_priority(history_base(count)),
        ..new_row(text, "past command"@, "history"@)
    }
}

/// What a command offers behind a beginning: the rest of it, without trailing
/// white space. A command that does not begin so offers nothing.
pub open spec fn offered_rest(command: Seq<char>, prefix: Seq<char>) -> Seq<char> {
    if begins_with(command, prefix) {
        trimmed_end(command.skip(prefix.len() as int))
    } else {
        Seq::empty()
    }
}

/// The texts offered by the commands from `i` on, the most recent first, each
/// once. Only what matches the query is offered.
pub open spec fn offered_texts(
    list: Seq<Seq<char>>,
    prefix: Seq<char>,
    query: Seq<char>,
    fuzzy: bool,
    i: int,
) -> Seq<Seq<char>>
    decreases list.len() - i,
{
    if i < 0 || i >= list.len() {
        Seq::empty()
    } else {
        let later = offered_texts(list, prefix, query, fuzzy, i + 1);
        let text = offered_rest(list[i], prefix);
        if text.len() > 0 && is_match(text, query, fuzzy) && !later.contains(text) {
            later.push(text)
        } else {
            later
        }
    }
}

/// The history rows behind a beginning.
pub open spec fn history_rows(
    list: Seq<Seq<char>>,
    prefix: Seq<char>,
    query: Seq<char>,
    fuzzy: bool,
) -> Seq<SuggestionView> {
    let offered = offered_texts(list, prefix, query, fuzzy, 0);
    let count = if offered.len() < HISTORY_LIMIT {
        offered.len() as int
    } else {
        HISTORY_LIMIT as int
    };
    Seq::new(
        count as nat,
        |i: int|
            history_row(
                offered[i],
                next_count(list, trimmed_end(prefix), first_word(offered[i])),
            ),
    )
}

proof fn lemma_offered_extends(
    list: Seq<Seq<char>>,
    prefix: Seq<char>,
    query: Seq<char>,
    fuzzy: bool,
    i: int,
    j: int,
)
    requires
        0 <= i <= j <= list.len(),
    ensures
        ({
            let all = offered_texts(list, prefix, query, fuzzy, i);
            let some = offered_texts(list, prefix, query, fuzzy, j);
            some.len() <= all.len() && some == all.take(some.len() as int)
        }),
    decreases j - i,
{
    let all = offered_texts(list, prefix, query, fuzzy, i);
    let some = offered_texts(list, prefix, query, fuzzy, j);
    if i < j {
        lemma_offered_extends(list, prefix, query, fuzzy, i + 1, j);
        let later = offered_texts(list, prefix, query, fuzzy, i + 1);
        assert(all.take(some.len() as int) =~= later.take(some.len() as int));
    } else {
        assert(all.take(all.len() as int) =~= all);
    }
}

impl Frecency {
    /// History rows behind the beginning of a command that has been typed: what
    /// is inserted is the rest of the command alone.
    pub fn history_suffix_suggestions(&self, prefix: &str, query: &str, fuzzy: bool) -> (out: Vec<
        Suggestion,
    >)
        requires
            self.valid(),
        ensures
            rows(out@) == history_rows(firsts(self@), prefix@, query@, fuzzy),
    {
        let head = chars_of(prefix);
        let word_prefix = trim_end(prefix);
        let ghost list = firsts(self@);
        let ghost stated = history_rows(list, prefix@, query@, fuzzy);
        let ghost all = offered_texts(list, prefix@, query@, fuzzy, 0);
        let mut seen = StringHashSet::new();
        let mut out: Vec<Suggestion> = Vec::new();
        let mut i: usize = self.commands.len();
        proof {
            assert(rows(out@) =~= stated.take(0));
        }
        while i > 0 && out.len() < HISTORY_LIMIT
            invariant
                self.valid(),
                i <= self.commands@.len(),
                list == firsts(self@),
                list.len() == self.commands@.len(),
                head@ == prefix@,
                word_prefix@ == trimmed_end(prefix@),
                stated == history_rows(list, prefix@, query@, fuzzy),
                all == offered_texts(list, prefix@, query@, fuzzy, 0),
                out@.len() == offered_texts(list, prefix@, query@, fuzzy, i as int).len(),
                out@.len() <= HISTORY_LIMIT,
                out@.len() <= stated.len(),
                rows(out@) == stated.take(out@.len() as int),
                forall|text: Seq<char>| #[trigger]
                    seen@.contains(text) <==> offered_texts(
                        list,
                        prefix@,
                        query@,
                        fuzzy,
                        i as int,
                    ).contains(text),
            decreases i,
        {
            let command = chars_of(&self.commands[i - 1].0);
            let ghost later = offered_texts(list, prefix@, query@, fuzzy, i as int);
            proof {
                assert(list[i - 1] == command@);
                lemma_offered_extends(list, prefix@, query@, fuzzy, 0, i - 1);
            }
            if is_at(&command, &head, 0) {
                let n = command.len();
                let rest = text_range(&command, head.len(), n);
                proof {
                    assert(rest@ =~= command@.skip(head@.len() as int));
                }
                let text = trim_end(&rest);
                if !text.as_str().is_empty() && matches_query(&text, query, fuzzy)
                    && !seen.contains(&text) {
                    let count = self.first_word_count(&word_prefix, &text);
                    let row = Suggestion::new(&text, "past command", "history").with_insert_value(
                        &text,
                    ).with_priority(history_priority_base(count));
                    let ghost had = out@;
                    let ghost grown = later.push(text@);
                    proof {
                        assert(grown == offered_texts(list, prefix@, query@, fuzzy, i - 1));
                        assert(grown.last() == all.take(grown.len() as int)[grown.len() - 1]);
                        assert(all[later.len() as int] == text@);
                    }
                    out.push(row);
                    proof {
                        assert(rows(out@) =~= rows(had).push(row@));
                        assert(row@ =~= stated[had.len() as int]);
                        assert(stated.take(out@.len() as int) =~= stated.take(
                            had.len() as int,
                        ).push(stated[had.len() as int]));
                        assert forall|other: Seq<char>| grown.contains(other) <==> later.contains(
                            other,
                        ) || other == text@ by {
                            if later.contains(other) {
                                let k = choose|k: int| 0 <= k < later.len() && later[k] == other;
                                assert(grown[k] == other);
                            }
                            if grown.contains(other) {
                                let k = choose|k: int| 0 <= k < grown.len() && grown[k] == other;
                                if k < later.len() {
                                    assert(later[k] == other);
                                }
                            }
                            assert(grown[later.len() as int] == text@);
                        }
                    }
                    let _ = seen.insert(text);
                }
            }
            i -= 1;
        }
        proof {
            if i == 0 {
                assert(out@.len() == all.len());
            } else {
                lemma_offered_extends(list, prefix@, query@, fuzzy, 0, i as int);
            }
            assert(out@.len() == stated.len());
            assert(stated.take(stated.len() as int) =~= stated);
        }
        out
    }

    /// History rows of whole commands. Without a query there are none, unless
    /// they are asked for.
    pub fn history_suggestions(&self, query: &str, fuzzy: bool, include_empty_query: bool) -> (out:
        Vec<Suggestion>)
        requires
            self.valid(),
        ensures
            rows(out@) == if query@.len() == 0 && !include_empty_query {
                Seq::<SuggestionView>::empty()
            } else {
                history_rows(firsts(self@), Seq::empty(), query@, fuzzy)
            },
    {
        if query.is_empty() && !include_empty_query {
            let out: Vec<Suggestion> = Vec::new();
            proof {
                assert(rows(out@) =~= Seq::<SuggestionView>::empty());
            }
            return out;
        }
        proof {
            reveal_strlit("");
            assert(""@ =~= Seq::<char>::empty());
        }
        self.history_suffix_suggestions("", query, fuzzy)
    }
}

/// What history offers behind a beginning never repeats it: accepting a row
/// completes a command that was used before, up to trailing white space.
pub proof fn law_history_rows_complete_commands(
    list: Seq<Seq<char>>,
    prefix: Seq<char>,
    query: Seq<char>,
    fuzzy: bool,
    i: int,
    text: Seq<char>,
)
    requires
        0 <= i <= list.len(),
        offered_texts(list, prefix, query, fuzzy, i).contains(text),
    ensures
        exists|k: int|
            i <= k < list.len() && #[trigger] offered_rest(list[k], prefix) == text && begins_with(
                list[k],
                prefix,
            ),
        is_match(text, query, fuzzy),
    decreases list.len() - i,
{
    if i < list.len() {
        let later = offered_texts(list, prefix, query, fuzzy, i + 1);
        let all = offered_texts(list, prefix, query, fuzzy, i);
        let k = choose|k: int| 0 <= k < all.len() && all[k] == text;
        if k < later.len() {
            assert(later[k] == text);
            law_history_rows_complete_commands(list, prefix, query, fuzzy, i + 1, text);
        } else {
            assert(offered_rest(list[i], prefix) == text);
        }
    }
}

/// No text is offered twice.
pub proof fn law_history_rows_are_distinct(
    list: Seq<Seq<char>>,
    prefix: Seq<char>,
    query: Seq<char>,
    fuzzy: bool,
    i: int,
)
    requires
        0 <= i <= list.len(),
    ensures
        ({
            let all = offered_texts(list, prefix, query, fuzzy, i);
            forall|a: int, b: int| 0 <= a < b < all.len() ==> all[a] != all[b]
        }),
    decreases list.len() - i,
{
    if i < list.len() {
        law_history_rows_are_distinct(list, prefix, query, fuzzy, i + 1);
        let later = offered_texts(list, prefix, query, fuzzy, i + 1);
        let all = offered_texts(list, prefix, query, fuzzy, i);
        assert forall|a: int, b: int| 0 <= a < b < all.len() implies all[a] != all[b] by {
            assert(all[a] == later[a]);
            if b < later.len() {
                assert(all[b] == later[b]);
            }
        }
    }
}

} // verus!
