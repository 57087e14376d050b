//! Prefix and fuzzy matching used by lookup, generators, and ranking.
//!
//! A fuzzy match is scored rather than merely detected: two names can both
//! match a query while the tighter or word-boundary match has to stay the
//! first row.
use std::cmp::Ordering;
use vstd::arithmetic::power::{lemma_pow_positive, pow};
use vstd::prelude::*;

use crate::text::{
    before, before_from, begins_with, chars_of, lowered, same, starts_with, to_lower,
};

verus! {

/// How a name matched. Earlier kinds sort first.
#[derive(Debug, Clone, Copy, PartialEq, Eq, Structural)]
pub enum MatchKind {
    ExactCase,
    ExactInsensitive,
    PrefixCase,
    PrefixInsensitive,
    Fuzzy,
}

/// A match and its quality. Within one kind a larger score is better; fuzzy
/// scores are zero or negative.
#[derive(Debug, Clone, Copy, PartialEq, Eq, Structural)]
pub struct MatchScore {
    pub kind: MatchKind,
    pub score: i64,
}

impl MatchKind {
    /// The rank of the kind, best first.
    pub open spec fn rank(self) -> int {
        match self {
            MatchKind::ExactCase => 0,
            MatchKind::ExactInsensitive => 1,
            MatchKind::PrefixCase => 2,
            MatchKind::PrefixInsensitive => 3,
            MatchKind::Fuzzy => 4,
        }
    }
}

impl MatchScore {
    /// The rank of the match's kind; lower buckets sort first.
    pub fn bucket(self) -> (bucket: u8)
        ensures
            bucket == self.kind.rank(),
    {
        match self.kind {
            MatchKind::ExactCase => 0,
            MatchKind::ExactInsensitive => 1,
            MatchKind::PrefixCase => 2,
            MatchKind::PrefixInsensitive => 3,
            MatchKind::Fuzzy => 4,
        }
    }
}

// ---------------------------------------------------------------------------
// Case folding
// ---------------------------------------------------------------------------
/// The Unicode lowercase form of a text, as `str::to_lowercase` gives it.
pub uninterp spec fn lowercase(s: Seq<char>) -> Seq<char>;

/// Whether every character is ASCII.
pub open spec fn is_ascii_text(s: Seq<char>) -> bool {
    forall|i: int| 0 <= i < s.len() ==> (#[trigger] s[i]) as u32 <= 0x7f
}

/// Calls `str::to_lowercase`. The result depends on the text alone; on ASCII
/// text it lowers the ASCII letters and leaves the rest.
#[verifier::external_body]
fn to_lowercase(text: &str) -> (folded: String)
    ensures
        folded@ == lowercase(text@),
        is_ascii_text(text@) ==> folded@ == lowered(text@),
{
    text.to_lowercase()
}

/// Whether the lowercase form of a text, if it is ASCII, has its ASCII letters
/// lowered and is otherwise the same.
pub open spec fn folds_plainly(s: Seq<char>) -> bool {
    is_ascii_text(s) ==> lowercase(s) == lowered(s)
}

/// The text that names and queries are compared as: the lowercase form.
pub fn fold_case(text: &str) -> (folded: String)
    ensures
        folded@ == lowercase(text@),
        folds_plainly(text@),
{
    to_lowercase(text)
}

// ---------------------------------------------------------------------------
// UTF-16
// ---------------------------------------------------------------------------
/// The UTF-16 code units of one character.
pub open spec fn char_units(c: char) -> Seq<u16> {
    let n = c as u32;
    if n < 0x10000 {
        seq![n as u16]
    } else {
        seq![(0xd800 + (n - 0x10000) / 0x400) as u16, (0xdc00 + (n - 0x10000) % 0x400) as u16]
    }
}

/// The UTF-16 code units of a text.
pub open spec fn units(s: Seq<char>) -> Seq<u16>
    decreases s.len(),
{
    if s.len() == 0 {
        Seq::empty()
    } else {
        units(s.drop_last()) + char_units(s.last())
    }
}

/// Computes [`units`].
pub fn utf16_units(text: &str) -> (out: Vec<u16>)
    ensures
        out@ == units(text@),
{
    let chars = chars_of(text);
    let mut out: Vec<u16> = Vec::new();
    let mut i: usize = 0;
    while i < chars.len()
        invariant
            i <= chars@.len(),
            chars@ == text@,
            out@ == units(chars@.take(i as int)),
        decreases chars@.len() - i,
    {
        let n: u32 = chars[i] as u32;
        let ghost done = out@;
        if n < 0x10000 {
            out.push(n as u16);
        } else {
            out.push((0xd800 + (n - 0x10000) / 0x400) as u16);
            out.push((0xdc00 + (n - 0x10000) % 0x400) as u16);
        }
        proof {
            assert(chars@.take(i + 1).drop_last() =~= chars@.take(i as int));
            assert(chars@.take(i + 1).last() == chars@[i as int]);
            assert(out@ =~= done + char_units(chars@[i as int]));
        }
        i += 1;
    }
    proof {
        assert(chars@.take(chars@.len() as int) =~= chars@);
    }
    out
}

// ---------------------------------------------------------------------------
// Fuzzy matching
// ---------------------------------------------------------------------------
/// The code units to compare: those of the folded text, cut or padded to the
/// number of code units of the text itself. The padding equals no code unit.
pub open spec fn codes(text: Seq<char>, folded: Seq<char>) -> Seq<u32> {
    Seq::new(
        units(text).len(),
        |i: int|
            if i < units(folded).len() {
                units(folded)[i] as u32
            } else {
                u32::MAX
            },
    )
}

/// Computes [`codes`].
pub fn prepare_lower_codes(value: &str, folded: &str) -> (out: Vec<u32>)
    ensures
        out@ == codes(value@, folded@),
{
    let original = utf16_units(value);
    let lower_units = utf16_units(folded);
    let mut out: Vec<u32> = Vec::new();
    let mut i: usize = 0;
    while i < original.len()
        invariant
            i <= original@.len(),
            original@ == units(value@),
            lower_units@ == units(folded@),
            out@ == codes(value@, folded@).take(i as int),
        decreases original@.len() - i,
    {
        if i < lower_units.len() {
            out.push(lower_units[i] as u32);
        } else {
            out.push(u32::MAX);
        }
        proof {
            assert(codes(value@, folded@).take(i + 1) =~= codes(value@, folded@).take(i as int).push(
                codes(value@, folded@)[i as int],
            ));
        }
        i += 1;
    }
    proof {
        assert(codes(value@, folded@).take(original@.len() as int) =~= codes(value@, folded@));
    }
    out
}

/// The leftmost places, from `t` on, of the search codes from `k` on.
pub open spec fn greedy(target: Seq<u32>, search: Seq<u32>, k: int, t: int) -> Option<Seq<int>>
    decreases target.len() - t,
{
    if k >= search.len() {
        Some(Seq::empty())
    } else if t >= target.len() {
        None
    } else if target[t] == search[k] {
        match greedy(target, search, k + 1, t + 1) {
            Some(rest) => Some(seq![t] + rest),
            None => None,
        }
    } else {
        greedy(target, search, k, t + 1)
    }
}

/// The elements as mathematical integers.
pub open spec fn ints(s: Seq<usize>) -> Seq<int> {
    Seq::new(s.len(), |i: int| s[i] as int)
}

/// Computes [`greedy`].
pub fn greedy_indexes(target: &[u32], search: &[u32]) -> (found: Option<Vec<usize>>)
    requires
        search@.len() > 0,
    ensures
        match found {
            Some(indexes) => greedy(target@, search@, 0, 0) == Some(ints(indexes@)),
            None => greedy(target@, search@, 0, 0) is None,
        },
{
    let mut indexes: Vec<usize> = Vec::new();
    let mut search_index: usize = 0;
    let mut target_index: usize = 0;
    proof {
        if let Some(rest) = greedy(target@, search@, 0, 0) {
            assert(ints(indexes@) + rest =~= rest);
        }
    }
    while target_index < target.len()
        invariant
            target_index <= target@.len(),
            search_index < search@.len(),
            greedy(target@, search@, 0, 0) == (match greedy(
                target@,
                search@,
                search_index as int,
                target_index as int,
            ) {
                Some(rest) => Some(ints(indexes@) + rest),
                None => None,
            }),
        decreases target@.len() - target_index,
    {
        if target[target_index] == search[search_index] {
            let ghost before_push = indexes@;
            indexes.push(target_index);
            search_index += 1;
            proof {
                assert(ints(indexes@) =~= ints(before_push).push(target_index as int));
                if let Some(rest) = greedy(
                    target@,
                    search@,
                    search_index as int,
                    target_index + 1,
                ) {
                    assert(ints(before_push) + (seq![target_index as int] + rest) =~= ints(indexes@)
                        + rest);
                }
            }
            if search_index == search.len() {
                proof {
                    assert(ints(indexes@) + Seq::<int>::empty() =~= ints(indexes@));
                }
                return Some(indexes);
            }
        }
        target_index += 1;
    }
    None
}

/// Whether the code unit is an ASCII upper-case letter.
pub open spec fn is_upper_unit(code: u16) -> bool {
    0x41 <= code <= 0x5a
}

/// Whether the code unit is an ASCII letter or digit.
pub open spec fn is_word_unit(code: u16) -> bool {
    is_upper_unit(code) || 0x61 <= code <= 0x7a || 0x30 <= code <= 0x39
}

/// Whether a word begins at position `i`: at a symbol, after one or at the
/// start, or where upper case begins.
pub open spec fn is_beginning(name: Seq<u16>, i: int) -> bool {
    ||| is_upper_unit(name[i]) && (i == 0 || !is_upper_unit(name[i - 1]))
    ||| i == 0 || !is_word_unit(name[i - 1])
    ||| !is_word_unit(name[i])
}

/// The first word beginning at or after `i`, or the length.
pub open spec fn beginning_from(name: Seq<u16>, i: int) -> int
    decreases name.len() - i,
{
    if i >= name.len() {
        name.len() as int
    } else if is_beginning(name, i) {
        i
    } else {
        beginning_from(name, i + 1)
    }
}

/// The positions where words begin, in order.
pub fn beginning_indexes(target: &[u16]) -> (beginnings: Vec<usize>)
    ensures
        forall|a: int, b: int| 0 <= a < b < beginnings@.len() ==> beginnings@[a] < beginnings@[b],
        forall|a: int|
            0 <= a < beginnings@.len() ==> #[trigger] beginnings@[a] < target@.len() && is_beginning(
                target@,
                beginnings@[a] as int,
            ),
        forall|i: int|
            0 <= i < target@.len() && #[trigger] is_beginning(target@, i) ==> beginnings@.contains(
                i as usize,
            ),
{
    let mut beginnings: Vec<usize> = Vec::new();
    let mut was_upper = false;
    let mut was_word = false;
    let mut index: usize = 0;
    while index < target.len()
        invariant
            index <= target@.len(),
            index > 0 ==> was_upper == is_upper_unit(target@[index - 1]),
            index > 0 ==> was_word == is_word_unit(target@[index - 1]),
            index == 0 ==> !was_upper && !was_word,
            forall|a: int, b: int|
                0 <= a < b < beginnings@.len() ==> beginnings@[a] < beginnings@[b],
            forall|a: int|
                0 <= a < beginnings@.len() ==> #[trigger] beginnings@[a] < index && is_beginning(
                    target@,
                    beginnings@[a] as int,
                ),
            forall|i: int|
                0 <= i < index && #[trigger] is_beginning(target@, i) ==> beginnings@.contains(
                    i as usize,
                ),
        decreases target@.len() - index,
    {
        let code: u16 = target[index];
        let is_upper = 0x41 <= code && code <= 0x5a;
        let is_word = is_upper || (0x61 <= code && code <= 0x7a) || (0x30 <= code && code <= 0x39);
        let ghost earlier = beginnings@;
        if (is_upper && !was_upper) || !was_word || !is_word {
            beginnings.push(index);
            proof {
                assert(beginnings@[earlier.len() as int] == index);
            }
        }
        proof {
            assert forall|i: int| 0 <= i < index + 1 && #[trigger] is_beginning(
                target@,
                i,
            ) implies beginnings@.contains(i as usize) by {
                if i < index {
                    let a = choose|a: int| 0 <= a < earlier.len() && earlier[a] == i as usize;
                    assert(beginnings@[a] == i as usize);
                } else {
                    assert(beginnings@[earlier.len() as int] == i as usize);
                }
            }
        }
        was_upper = is_upper;
        was_word = is_word;
        index += 1;
    }
    beginnings
}

/// The least element greater than `i` of an increasing list from position
/// `at` on, or `limit`.
pub open spec fn next_in(list: Seq<usize>, at: int, i: int, limit: int) -> int
    decreases list.len() - at,
{
    if at < 0 || at >= list.len() {
        limit
    } else if list[at] > i {
        list[at] as int
    } else {
        next_in(list, at + 1, i, limit)
    }
}

/// For each position the next word beginning after it.
pub fn next_beginning_indexes(target_len: usize, beginnings: &[usize]) -> (next: Vec<usize>)
    requires
        forall|a: int, b: int| 0 <= a < b < beginnings@.len() ==> beginnings@[a] < beginnings@[b],
    ensures
        next@.len() == target_len,
        forall|i: int|
            0 <= i < target_len ==> #[trigger] next@[i] == next_in(
                beginnings@,
                0,
                i,
                target_len as int,
            ),
{
    let mut next: Vec<usize> = Vec::new();
    let mut at: usize = 0;
    let mut index: usize = 0;
    while index < target_len
        invariant
            index <= target_len,
            next@.len() == index,
            at <= beginnings@.len(),
            at < beginnings@.len() ==> beginnings@[at as int] >= index,
            forall|a: int, b: int|
                0 <= a < b < beginnings@.len() ==> beginnings@[a] < beginnings@[b],
            forall|i: int, limit: int|
                i >= index ==> #[trigger] next_in(beginnings@, 0, i, limit) == next_in(
                    beginnings@,
                    at as int,
                    i,
                    limit,
                ),
            forall|i: int|
                0 <= i < index ==> #[trigger] next@[i] == next_in(
                    beginnings@,
                    0,
                    i,
                    target_len as int,
                ),
        decreases target_len - index,
    {
        if at < beginnings.len() && beginnings[at] <= index {
            at += 1;
        }
        proof {
            assert(next_in(beginnings@, 0, index as int, target_len as int) == next_in(
                beginnings@,
                at as int,
                index as int,
                target_len as int,
            ));
        }
        if at < beginnings.len() {
            next.push(beginnings[at]);
        } else {
            next.push(target_len);
        }
        index += 1;
    }
    next
}

/// The strict places, from `t` on, of the search codes from `k` on: each code
/// stands right behind the one before it or at a word beginning, and the first
/// choice that can be completed is taken.
pub open spec fn strict(
    target: Seq<u32>,
    search: Seq<u32>,
    next: Seq<usize>,
    k: int,
    t: int,
) -> Option<Seq<int>>
    decreases search.len() - k, target.len() - t,
{
    if k < 0 || k >= search.len() || t < 0 || t >= target.len() {
        None
    } else if search[k] == target[t] {
        if k + 1 == search.len() {
            Some(seq![t])
        } else {
            match strict(target, search, next, k + 1, t + 1) {
                Some(rest) => Some(seq![t] + rest),
                None => if t < next[t] <= target.len() {
                    strict(target, search, next, k, next[t] as int)
                } else {
                    None
                },
            }
        }
    } else if t < next[t] <= target.len() {
        strict(target, search, next, k, next[t] as int)
    } else {
        None
    }
}

/// What a search that has placed `chosen` and stands at `t` ends with.
spec fn resumed(
    target: Seq<u32>,
    search: Seq<u32>,
    next: Seq<usize>,
    chosen: Seq<int>,
    t: int,
) -> Option<Seq<int>>
    decreases chosen.len(),
{
    match strict(target, search, next, chosen.len() as int, t) {
        Some(rest) => Some(chosen + rest),
        None => if chosen.len() == 0 {
            None
        } else {
            resumed(target, search, next, chosen.drop_last(), next[chosen.last()] as int)
        },
    }
}

proof fn lemma_resumed_push(
    target: Seq<u32>,
    search: Seq<u32>,
    next: Seq<usize>,
    chosen: Seq<int>,
    t: int,
)
    requires
        0 <= t < target.len(),
        chosen.len() + 1 < search.len(),
        search[chosen.len() as int] == target[t],
        t < next[t] <= target.len(),
    ensures
        resumed(target, search, next, chosen, t) == resumed(
            target,
            search,
            next,
            chosen.push(t),
            t + 1,
        ),
{
    let k = chosen.len() as int;
    let longer = chosen.push(t);
    assert(longer.drop_last() =~= chosen);
    assert(longer.last() == t);
    match strict(target, search, next, k + 1, t + 1) {
        Some(rest) => {
            assert(chosen + (seq![t] + rest) =~= longer + rest);
        },
        None => {
            assert(strict(target, search, next, k, t) == strict(
                target,
                search,
                next,
                k,
                next[t] as int,
            ));
            assert(resumed(target, search, next, longer, t + 1) == resumed(
                target,
                search,
                next,
                chosen,
                next[t] as int,
            ));
        },
    }
}

/// The share of the places already chosen in the bound on the steps left.
spec fn spent(chosen: Seq<int>, n: int, m: int) -> int
    decreases chosen.len(),
{
    if chosen.len() == 0 {
        0
    } else {
        spent(chosen.drop_last(), n, m) + (n - chosen.last()) * pow(
            n + 2,
            (m - chosen.len() + 1) as nat,
        )
    }
}

/// A bound on the steps left of a search that stands at `t`.
spec fn steps_left(chosen: Seq<int>, t: int, n: int, m: int) -> int {
    spent(chosen, n, m) + (n + 1 - t) * pow(n + 2, (m - chosen.len()) as nat)
}

proof fn lemma_spent_nonnegative(chosen: Seq<int>, n: int, m: int)
    requires
        0 <= n,
        chosen.len() <= m,
        forall|i: int| 0 <= i < chosen.len() ==> 0 <= #[trigger] chosen[i] < n,
    ensures
        spent(chosen, n, m) >= 0,
    decreases chosen.len(),
{
    if chosen.len() > 0 {
        lemma_spent_nonnegative(chosen.drop_last(), n, m);
        lemma_pow_positive(n + 2, (m - chosen.len() + 1) as nat);
        let p = pow(n + 2, (m - chosen.len() + 1) as nat);
        assert((n - chosen.last()) * p >= 0) by (nonlinear_arith)
            requires
                n - chosen.last() >= 0,
                p > 0,
        ;
    }
}

proof fn lemma_steps_nonnegative(chosen: Seq<int>, t: int, n: int, m: int)
    requires
        0 <= t <= n,
        chosen.len() <= m,
        forall|i: int| 0 <= i < chosen.len() ==> 0 <= #[trigger] chosen[i] < n,
    ensures
        steps_left(chosen, t, n, m) >= 0,
{
    lemma_spent_nonnegative(chosen, n, m);
    lemma_pow_positive(n + 2, (m - chosen.len()) as nat);
    let p = pow(n + 2, (m - chosen.len()) as nat);
    assert((n + 1 - t) * p >= 0) by (nonlinear_arith)
        requires
            n + 1 - t >= 0,
            p > 0,
    ;
}

proof fn lemma_steps_push(chosen: Seq<int>, t: int, n: int, m: int)
    requires
        0 <= t < n,
        chosen.len() < m,
    ensures
        steps_left(chosen.push(t), t + 1, n, m) < steps_left(chosen, t, n, m),
{
    let e = (m - chosen.len()) as nat;
    let p = pow(n + 2, (e - 1) as nat);
    vstd::arithmetic::power::lemma_pow1(n + 2);
    vstd::arithmetic::power::lemma_pow_adds(n + 2, 1, (e - 1) as nat);
    assert(pow(n + 2, e) == (n + 2) * p);
    lemma_pow_positive(n + 2, (e - 1) as nat);
    assert(chosen.push(t).drop_last() =~= chosen);
    assert((n - t) * ((n + 2) * p) + (n - t) * p < (n + 1 - t) * ((n + 2) * p))
        by (nonlinear_arith)
        requires
            p > 0,
            0 <= t < n,
    ;
}

proof fn lemma_steps_skip(chosen: Seq<int>, t: int, to: int, n: int, m: int)
    requires
        0 <= t < to <= n,
        chosen.len() <= m,
    ensures
        steps_left(chosen, to, n, m) < steps_left(chosen, t, n, m),
{
    let p = pow(n + 2, (m - chosen.len()) as nat);
    lemma_pow_positive(n + 2, (m - chosen.len()) as nat);
    assert((n + 1 - to) * p < (n + 1 - t) * p) by (nonlinear_arith)
        requires
            p > 0,
            t < to,
    ;
}

proof fn lemma_steps_pop(chosen: Seq<int>, t: int, to: int, n: int, m: int)
    requires
        0 < chosen.len() <= m,
        0 <= t <= n,
        0 <= chosen.last() < to <= n,
    ensures
        steps_left(chosen.drop_last(), to, n, m) < steps_left(chosen, t, n, m),
{
    let p = pow(n + 2, (m - chosen.len() + 1) as nat);
    let q = pow(n + 2, (m - chosen.len()) as nat);
    lemma_pow_positive(n + 2, (m - chosen.len() + 1) as nat);
    lemma_pow_positive(n + 2, (m - chosen.len()) as nat);
    let last = chosen.last();
    assert((n + 1 - to) * p < (n - last) * p + (n + 1 - t) * q) by (nonlinear_arith)
        requires
            p > 0,
            q > 0,
            last + 1 <= to,
            t <= n,
    ;
}

/// Computes [`strict`] from the first search code on.
pub fn strict_indexes(
    target: &[u32],
    search: &[u32],
    next_beginning: &[usize],
    start: usize,
) -> (found: Option<Vec<usize>>)
    requires
        search@.len() > 0,
        next_beginning@.len() == target@.len(),
        forall|i: int|
            0 <= i < target@.len() ==> i < #[trigger] next_beginning@[i] <= target@.len(),
        start <= target@.len(),
    ensures
        match found {
            Some(indexes) => strict(target@, search@, next_beginning@, 0, start as int) == Some(
                ints(indexes@),
            ),
            None => strict(target@, search@, next_beginning@, 0, start as int) is None,
        },
{
    let mut target_index: usize = start;
    let mut indexes: Vec<usize> = Vec::new();
    let ghost n = target@.len() as int;
    let ghost m = search@.len() as int;
    let ghost outcome = strict(target@, search@, next_beginning@, 0, start as int);
    proof {
        assert(ints(indexes@) =~= Seq::<int>::empty());
        if let Some(rest) = outcome {
            assert(ints(indexes@) + rest =~= rest);
        }
        lemma_steps_nonnegative(ints(indexes@), target_index as int, n, m);
    }
    loop
        invariant
            n == target@.len(),
            m == search@.len(),
            next_beginning@.len() == target@.len(),
            forall|i: int|
                0 <= i < target@.len() ==> i < #[trigger] next_beginning@[i] <= target@.len(),
            target_index <= target@.len(),
            indexes@.len() < search@.len(),
            forall|i: int| 0 <= i < indexes@.len() ==> #[trigger] indexes@[i] < target@.len(),
            outcome == strict(target@, search@, next_beginning@, 0, start as int),
            outcome == resumed(
                target@,
                search@,
                next_beginning@,
                ints(indexes@),
                target_index as int,
            ),
            steps_left(ints(indexes@), target_index as int, n, m) >= 0,
        decreases steps_left(ints(indexes@), target_index as int, n, m),
    {
        let ghost chosen = ints(indexes@);
        let ghost t = target_index as int;
        if target_index >= target.len() {
            match indexes.pop() {
                None => {
                    return None;
                },
                Some(last_match) => {
                    proof {
                        assert(ints(indexes@) =~= chosen.drop_last());
                        assert(chosen.last() == last_match);
                        lemma_steps_pop(chosen, t, next_beginning@[last_match as int] as int, n, m);
                    }
                    target_index = next_beginning[last_match];
                },
            }
        } else if search[indexes.len()] == target[target_index] {
            indexes.push(target_index);
            proof {
                assert(ints(indexes@) =~= chosen.push(t));
                assert(chosen + seq![t] =~= chosen.push(t));
            }
            if indexes.len() == search.len() {
                return Some(indexes);
            }
            proof {
                lemma_resumed_push(target@, search@, next_beginning@, chosen, t);
                lemma_steps_push(chosen, t, n, m);
            }
            target_index += 1;
        } else {
            proof {
                lemma_steps_skip(chosen, t, next_beginning@[t] as int, n, m);
            }
            target_index = next_beginning[target_index];
        }
        proof {
            lemma_steps_nonnegative(ints(indexes@), target_index as int, n, m);
        }
    }
}

/// The places of the query in the name and the score they earn.
#[derive(Debug)]
pub struct FuzzyMatch {
    pub score: i64,
    pub indexes: Vec<usize>,
}

/// The sum of the places that do not continue a run.
pub open spec fn gap_cost(indexes: Seq<int>) -> int
    decreases indexes.len(),
{
    if indexes.len() == 0 {
        0
    } else {
        let last = indexes.last();
        gap_cost(indexes.drop_last()) + if indexes.len() > 1 && indexes[indexes.len() - 2] == last
            - 1 {
            0
        } else {
            last
        }
    }
}

/// The score of a match: the cost of its gaps, a thousandfold where only the
/// leftmost places were found, and the code units left over. It is cut off at
/// the least `i64`.
pub open spec fn fuzzy_score(
    indexes: Seq<int>,
    is_strict: bool,
    target_len: int,
    search_len: int,
) -> int {
    let cost = gap_cost(indexes) * if is_strict {
        1int
    } else {
        1000int
    };
    let rest = if target_len > search_len {
        target_len - search_len
    } else {
        0
    };
    if -cost - rest < i64::MIN {
        i64::MIN as int
    } else {
        -cost - rest
    }
}

/// The table of next word beginnings of a name.
pub open spec fn next_beginnings(name: Seq<u16>) -> Seq<usize> {
    Seq::new(name.len(), |i: int| beginning_from(name, i + 1) as usize)
}

/// The places that a fuzzy match uses and whether they are strict ones.
pub open spec fn fuzzy_places(
    name: Seq<u16>,
    target: Seq<u32>,
    search: Seq<u32>,
) -> Option<(Seq<int>, bool)> {
    match greedy(target, search, 0, 0) {
        None => None,
        Some(simple) => match strict(
            target,
            search,
            next_beginnings(name),
            0,
            beginning_from(name, simple[0]),
        ) {
            Some(indexes) => Some((indexes, true)),
            None => Some((simple, false)),
        },
    }
}

/// The fuzzy match of a query in a name, given the folded forms of both.
pub open spec fn fuzzy_with(
    name: Seq<char>,
    query: Seq<char>,
    folded_name: Seq<char>,
    folded_query: Seq<char>,
) -> Option<(int, Seq<int>)> {
    let target = codes(name, folded_name);
    let search = codes(query, folded_query);
    if search.len() == 0 {
        None
    } else {
        match fuzzy_places(units(name), target, search) {
            None => None,
            Some((indexes, is_strict)) => Some(
                (
                    fuzzy_score(indexes, is_strict, target.len() as int, search.len() as int),
                    indexes,
                ),
            ),
        }
    }
}

proof fn lemma_beginning_from(name: Seq<u16>, i: int)
    requires
        0 <= i <= name.len(),
    ensures
        i <= beginning_from(name, i) <= name.len(),
        beginning_from(name, i) < name.len() ==> is_beginning(name, beginning_from(name, i)),
        forall|j: int| i <= j < beginning_from(name, i) ==> !is_beginning(name, j),
    decreases name.len() - i,
{
    if i < name.len() && !is_beginning(name, i) {
        lemma_beginning_from(name, i + 1);
    }
}

proof fn lemma_next_in(list: Seq<usize>, at: int, i: int, limit: int)
    requires
        0 <= at <= list.len(),
    ensures
        ({
            let v = next_in(list, at, i, limit);
            ||| v == limit && forall|a: int| at <= a < list.len() ==> list[a] <= i
            ||| exists|a: int|
                at <= a < list.len() && #[trigger] list[a] == v && v > i && forall|b: int|
                    at <= b < a ==> list[b] <= i
        }),
    decreases list.len() - at,
{
    if at < list.len() {
        if list[at] > i {
            assert(list[at] == next_in(list, at, i, limit));
        } else {
            lemma_next_in(list, at + 1, i, limit);
        }
    }
}

proof fn lemma_next_is_beginning(name: Seq<u16>, beginnings: Seq<usize>, i: int)
    requires
        0 <= i < name.len() <= usize::MAX,
        forall|a: int, b: int| 0 <= a < b < beginnings.len() ==> beginnings[a] < beginnings[b],
        forall|a: int|
            0 <= a < beginnings.len() ==> #[trigger] beginnings[a] < name.len() && is_beginning(
                name,
                beginnings[a] as int,
            ),
        forall|j: int|
            0 <= j < name.len() && #[trigger] is_beginning(name, j) ==> beginnings.contains(
                j as usize,
            ),
    ensures
        next_in(beginnings, 0, i, name.len() as int) == beginning_from(name, i + 1),
{
    let v = beginning_from(name, i + 1);
    let w = next_in(beginnings, 0, i, name.len() as int);
    lemma_beginning_from(name, i + 1);
    lemma_next_in(beginnings, 0, i, name.len() as int);
    if v < name.len() {
        assert(is_beginning(name, v));
        let a = choose|a: int| 0 <= a < beginnings.len() && beginnings[a] == v as usize;
        assert(beginnings[a] == v);
        assert(beginnings[a] > i);
        let c = choose|c: int|
            0 <= c < beginnings.len() && #[trigger] beginnings[c] == w && w > i && forall|b: int|
                0 <= b < c ==> beginnings[b] <= i;
        assert(w <= v) by {
            if c < a {
                assert(beginnings[c] < beginnings[a]);
            }
        }
        assert(is_beginning(name, w));
        assert(w >= v);
    } else if w != name.len() {
        let c = choose|c: int|
            0 <= c < beginnings.len() && #[trigger] beginnings[c] == w && w > i && forall|b: int|
                0 <= b < c ==> beginnings[b] <= i;
        assert(is_beginning(name, w));
        assert(i + 1 <= w < v);
    }
}

/// The places of a leftmost match increase and spell the search codes.
proof fn lemma_greedy_places(target: Seq<u32>, search: Seq<u32>, k: int, t: int)
    requires
        0 <= k <= search.len(),
        0 <= t,
    ensures
        greedy(target, search, k, t) matches Some(places) ==> spells(
            target,
            search.skip(k),
            places,
        ) && (places.len() > 0 ==> places[0] >= t),
    decreases target.len() - t,
{
    if k < search.len() && t < target.len() {
        if target[t] == search[k] {
            lemma_greedy_places(target, search, k + 1, t + 1);
            if let Some(rest) = greedy(target, search, k + 1, t + 1) {
                lemma_spells_step(target, search, k, t, rest);
            }
        } else {
            lemma_greedy_places(target, search, k, t + 1);
        }
    }
}

proof fn lemma_strict_places(
    target: Seq<u32>,
    search: Seq<u32>,
    next: Seq<usize>,
    k: int,
    t: int,
)
    requires
        0 <= k <= search.len(),
        0 <= t,
    ensures
        strict(target, search, next, k, t) matches Some(places) ==> spells(
            target,
            search.skip(k),
            places,
        ) && places.len() > 0 && places[0] >= t,
    decreases search.len() - k, target.len() - t,
{
    if k < search.len() && t < target.len() {
        if search[k] == target[t] {
            if k + 1 == search.len() {
                assert(seq![t] + Seq::<int>::empty() =~= seq![t]);
                assert(spells(target, search.skip(k + 1), Seq::<int>::empty()));
                lemma_spells_step(target, search, k, t, Seq::empty());
            } else {
                lemma_strict_places(target, search, next, k + 1, t + 1);
                match strict(target, search, next, k + 1, t + 1) {
                    Some(rest) => {
                        lemma_spells_step(target, search, k, t, rest);
                    },
                    None => {
                        if t < next[t] <= target.len() {
                            lemma_strict_places(target, search, next, k, next[t] as int);
                        }
                    },
                }
            }
        } else if t < next[t] <= target.len() {
            lemma_strict_places(target, search, next, k, next[t] as int);
        }
    }
}

/// Whether the places increase and hold exactly the search codes.
pub open spec fn spells(target: Seq<u32>, search: Seq<u32>, places: Seq<int>) -> bool {
    &&& places.len() == search.len()
    &&& forall|i: int|
        0 <= i < places.len() ==> 0 <= #[trigger] places[i] < target.len() && target[places[i]]
            == search[i]
    &&& forall|i: int, j: int| 0 <= i < j < places.len() ==> places[i] < places[j]
}

proof fn lemma_spells_step(
    target: Seq<u32>,
    search: Seq<u32>,
    k: int,
    t: int,
    rest: Seq<int>,
)
    requires
        0 <= k < search.len(),
        0 <= t < target.len(),
        target[t] == search[k],
        spells(target, search.skip(k + 1), rest),
        rest.len() > 0 ==> rest[0] >= t + 1,
    ensures
        spells(target, search.skip(k), seq![t] + rest),
{
    let all = seq![t] + rest;
    assert forall|i: int| 0 <= i < all.len() implies 0 <= #[trigger] all[i] < target.len()
        && target[all[i]] == search.skip(k)[i] by {
        if i > 0 {
            assert(all[i] == rest[i - 1]);
            assert(search.skip(k)[i] == search.skip(k + 1)[i - 1]);
        }
    }
    assert forall|i: int, j: int| 0 <= i < j < all.len() implies all[i] < all[j] by {
        assert(all[j] == rest[j - 1]);
        if i > 0 {
            assert(all[i] == rest[i - 1]);
        } else if j > 1 {
            assert(rest[0] < rest[j - 1]);
        }
    }
}

proof fn lemma_gap_cost_nonnegative(indexes: Seq<int>)
    requires
        forall|i: int| 0 <= i < indexes.len() ==> 0 <= #[trigger] indexes[i],
    ensures
        gap_cost(indexes) >= 0,
    decreases indexes.len(),
{
    if indexes.len() > 0 {
        lemma_gap_cost_nonnegative(indexes.drop_last());
    }
}

/// Takes `amount` from `value`, stopping at the least `i64`.
fn take_off(value: i64, amount: usize) -> (rest: i64)
    requires
        value <= 0,
    ensures
        rest == if value - amount < i64::MIN {
            i64::MIN as int
        } else {
            value - amount
        },
{
    if amount as u128 >= 0x8000_0000_0000_0000u128 {
        i64::MIN
    } else {
        let step: i64 = amount as i64;
        if value < i64::MIN + step {
            i64::MIN
        } else {
            value - step
        }
    }
}

/// Computes [`fuzzy_score`].
fn score_places(
    indexes: &[usize],
    is_strict: bool,
    target_len: usize,
    search_len: usize,
) -> (score: i64)
    ensures
        score == fuzzy_score(ints(indexes@), is_strict, target_len as int, search_len as int),
{
    let mut score: i64 = 0;
    let mut i: usize = 0;
    while i < indexes.len()
        invariant
            i <= indexes@.len(),
            score == if -gap_cost(ints(indexes@).take(i as int)) < i64::MIN {
                i64::MIN as int
            } else {
                -gap_cost(ints(indexes@).take(i as int))
            },
            gap_cost(ints(indexes@).take(i as int)) >= 0,
        decreases indexes@.len() - i,
    {
        let ghost upto = ints(indexes@).take(i + 1);
        proof {
            assert(upto.drop_last() =~= ints(indexes@).take(i as int));
            assert(upto.last() == indexes@[i as int]);
            lemma_gap_cost_nonnegative(upto);
            if i > 0 {
                assert(upto[upto.len() - 2] == indexes@[i - 1]);
            }
        }
        let index: usize = indexes[i];
        let continues = i > 0 && index > 0 && indexes[i - 1] == index - 1;
        if !continues {
            score = take_off(score, index);
        }
        i += 1;
    }
    proof {
        assert(ints(indexes@).take(indexes@.len() as int) =~= ints(indexes@));
    }
    if !is_strict {
        score = if score < -9_223_372_036_854_775 {
            i64::MIN
        } else {
            score * 1000
        };
    }
    let rest: usize = if target_len > search_len {
        target_len - search_len
    } else {
        0
    };
    take_off(score, rest)
}

/// Computes [`next_beginnings`].
fn next_beginning_table(name: &[u16]) -> (next: Vec<usize>)
    ensures
        next@ == next_beginnings(name@),
        forall|i: int|
            0 <= i < name@.len() ==> #[trigger] next@[i] == beginning_from(name@, i + 1) && i
                < next@[i] <= name@.len(),
{
    let beginnings = beginning_indexes(name);
    let next = next_beginning_indexes(name.len(), &beginnings);
    proof {
        assert forall|i: int| 0 <= i < name@.len() implies i < #[trigger] next@[i] <= name@.len()
            && next@[i] == beginning_from(name@, i + 1) by {
            lemma_next_is_beginning(name@, beginnings@, i);
            lemma_beginning_from(name@, i + 1);
        }
        assert(next@ =~= next_beginnings(name@));
    }
    next
}

/// The fuzzy match of a query in a name, given their folded forms: first a
/// leftmost subsequence, then an attempt to move each character to a word
/// beginning or right behind its predecessor.
pub fn fuzzy_match_folded(
    name: &str,
    query: &str,
    folded_name: &str,
    folded_query: &str,
) -> (found: Option<FuzzyMatch>)
    ensures
        match found {
            Some(m) => fuzzy_with(name@, query@, folded_name@, folded_query@) == Some(
                (m.score as int, ints(m.indexes@)),
            ),
            None => fuzzy_with(name@, query@, folded_name@, folded_query@) is None,
        },
{
    let target = prepare_lower_codes(name, folded_name);
    let search = prepare_lower_codes(query, folded_query);
    if search.is_empty() {
        return None;
    }
    let simple = match greedy_indexes(&target, &search) {
        Some(simple) => simple,
        None => {
            return None;
        },
    };
    let name_units = utf16_units(name);
    let next = next_beginning_table(&name_units);
    proof {
        lemma_greedy_places(target@, search@, 0, 0);
        assert(search@.skip(0) =~= search@);
        assert(ints(simple@)[0] == simple@[0]);
        assert(is_beginning(name_units@, 0));
    }
    let first_possible: usize = if simple[0] == 0 {
        0
    } else {
        next[simple[0] - 1]
    };
    let (indexes, is_strict): (Vec<usize>, bool) = match strict_indexes(
        &target,
        &search,
        &next,
        first_possible,
    ) {
        Some(indexes) => (indexes, true),
        None => (simple, false),
    };
    let score = score_places(&indexes, is_strict, target.len(), search.len());
    Some(FuzzyMatch { score, indexes })
}

/// The fuzzy match of a query in a name.
pub fn fuzzy_match(name: &str, query: &str) -> (found: Option<FuzzyMatch>)
    ensures
        match found {
            Some(m) => fuzzy_with(name@, query@, lowercase(name@), lowercase(query@)) == Some(
                (m.score as int, ints(m.indexes@)),
            ),
            None => fuzzy_with(name@, query@, lowercase(name@), lowercase(query@)) is None,
        },
        folds_plainly(name@),
        folds_plainly(query@),
{
    let folded_name = fold_case(name);
    let folded_query = fold_case(query);
    fuzzy_match_folded(name, query, &folded_name, &folded_query)
}

/// The places in `name`, in UTF-16 code units, that a fuzzy match highlights.
pub fn fuzzy_indexes(name: &str, query: &str) -> (found: Option<Vec<usize>>)
    ensures
        match found {
            Some(indexes) => fuzzy_with(name@, query@, lowercase(name@), lowercase(query@))
                matches Some((_, places)) && places == ints(indexes@),
            None => fuzzy_with(name@, query@, lowercase(name@), lowercase(query@)) is None,
        },
{
    match fuzzy_match(name, query) {
        Some(found) => Some(found.indexes),
        None => None,
    }
}

/// A fuzzy match finds the query: its places increase and hold exactly the
/// query's codes.
pub proof fn law_fuzzy_places_spell_the_query(
    name: Seq<char>,
    query: Seq<char>,
    folded_name: Seq<char>,
    folded_query: Seq<char>,
)
    ensures
        fuzzy_with(name, query, folded_name, folded_query) matches Some((score, places)) ==> spells(
            codes(name, folded_name),
            codes(query, folded_query),
            places,
        ) && score <= 0,
{
    let target = codes(name, folded_name);
    let search = codes(query, folded_query);
    lemma_greedy_places(target, search, 0, 0);
    assert(search.skip(0) =~= search);
    if let Some(simple) = greedy(target, search, 0, 0) {
        if search.len() > 0 {
            let start = beginning_from(units(name), simple[0]);
            lemma_beginning_from(units(name), simple[0]);
            lemma_strict_places(target, search, next_beginnings(units(name)), 0, start);
            if let Some((places, _)) = fuzzy_places(units(name), target, search) {
                lemma_gap_cost_nonnegative(places);
            }
        }
    }
}

/// Whether the codes occur in the target in order.
pub open spec fn is_subsequence(target: Seq<u32>, search: Seq<u32>) -> bool {
    exists|places: Seq<int>| spells(target, search, places)
}

proof fn lemma_greedy_complete(
    target: Seq<u32>,
    search: Seq<u32>,
    k: int,
    t: int,
    places: Seq<int>,
)
    requires
        0 <= k <= search.len(),
        0 <= t,
        spells(target, search.skip(k), places),
        places.len() > 0 ==> places[0] >= t,
    ensures
        greedy(target, search, k, t) is Some,
    decreases target.len() - t,
{
    if k < search.len() {
        assert(places[0] < target.len());
        assert(target[places[0]] == search.skip(k)[0]);
        if target[t] == search[k] {
            let rest = places.skip(1);
            assert(search.skip(k + 1) =~= search.skip(k).skip(1));
            assert forall|i: int| 0 <= i < rest.len() implies 0 <= #[trigger] rest[i] < target.len()
                && target[rest[i]] == search.skip(k + 1)[i] by {
                assert(rest[i] == places[i + 1]);
            }
            lemma_greedy_complete(target, search, k + 1, t + 1, rest);
        } else {
            lemma_greedy_complete(target, search, k, t + 1, places);
        }
    }
}

/// A non-empty query matches fuzzily exactly where its codes occur in the
/// name in order.
pub proof fn law_fuzzy_matches_subsequences(
    name: Seq<char>,
    query: Seq<char>,
    folded_name: Seq<char>,
    folded_query: Seq<char>,
)
    requires
        codes(query, folded_query).len() > 0,
    ensures
        fuzzy_with(name, query, folded_name, folded_query) is Some <==> is_subsequence(
            codes(name, folded_name),
            codes(query, folded_query),
        ),
{
    let target = codes(name, folded_name);
    let search = codes(query, folded_query);
    assert(search.skip(0) =~= search);
    if is_subsequence(target, search) {
        let places = choose|places: Seq<int>| spells(target, search, places);
        lemma_greedy_complete(target, search, 0, 0, places);
    }
    law_fuzzy_places_spell_the_query(name, query, folded_name, folded_query);
}

// ---------------------------------------------------------------------------
// Matching a name
// ---------------------------------------------------------------------------
/// How a name matches a query, given the folded forms of both.
pub open spec fn match_with(
    name: Seq<char>,
    query: Seq<char>,
    folded_name: Seq<char>,
    folded_query: Seq<char>,
    fuzzy: bool,
) -> Option<MatchScore> {
    if query.len() == 0 {
        None
    } else if name == query {
        Some(MatchScore { kind: MatchKind::ExactCase, score: 0 })
    } else if folded_name == folded_query {
        Some(MatchScore { kind: MatchKind::ExactInsensitive, score: (-1) as i64 })
    } else if begins_with(name, query) {
        Some(MatchScore { kind: MatchKind::PrefixCase, score: (-2) as i64 })
    } else if begins_with(folded_name, folded_query) {
        Some(MatchScore { kind: MatchKind::PrefixInsensitive, score: (-3) as i64 })
    } else if fuzzy {
        match fuzzy_with(name, query, folded_name, folded_query) {
            Some((score, _)) => Some(MatchScore { kind: MatchKind::Fuzzy, score: score as i64 }),
            None => None,
        }
    } else {
        None
    }
}

/// How a name matches a query.
pub open spec fn match_of(name: Seq<char>, query: Seq<char>, fuzzy: bool) -> Option<MatchScore> {
    match_with(name, query, lowercase(name), lowercase(query), fuzzy)
}

/// Whether a name matches a query; the empty query matches every name.
pub open spec fn is_match(name: Seq<char>, query: Seq<char>, fuzzy: bool) -> bool {
    query.len() == 0 || match_of(name, query, fuzzy) is Some
}

/// Computes [`match_with`].
pub fn match_score_folded(
    name: &str,
    query: &str,
    folded_name: &str,
    folded_query: &str,
    fuzzy: bool,
) -> (found: Option<MatchScore>)
    ensures
        found == match_with(name@, query@, folded_name@, folded_query@, fuzzy),
{
    if query.is_empty() {
        return None;
    }
    if same(name, query) {
        return Some(MatchScore { kind: MatchKind::ExactCase, score: 0 });
    }
    if same(folded_name, folded_query) {
        return Some(MatchScore { kind: MatchKind::ExactInsensitive, score: -1 });
    }
    if starts_with(name, query) {
        return Some(MatchScore { kind: MatchKind::PrefixCase, score: -2 });
    }
    if starts_with(folded_name, folded_query) {
        return Some(MatchScore { kind: MatchKind::PrefixInsensitive, score: -3 });
    }
    if fuzzy {
        match fuzzy_match_folded(name, query, folded_name, folded_query) {
            Some(found) => Some(MatchScore { kind: MatchKind::Fuzzy, score: found.score }),
            None => None,
        }
    } else {
        None
    }
}

/// Matches `name` against `query` and returns a sortable quality score. Exact
/// and prefix matches have kinds of their own: a prefix beats a scattered
/// fuzzy hit whatever the latter's score.
pub fn match_score(name: &str, query: &str, fuzzy: bool) -> (found: Option<MatchScore>)
    ensures
        found == match_of(name@, query@, fuzzy),
        folds_plainly(name@),
        folds_plainly(query@),
{
    let folded_name = fold_case(name);
    let folded_query = fold_case(query);
    match_score_folded(name, query, &folded_name, &folded_query, fuzzy)
}

/// Whether `name` matches `query`.
pub fn matches_query(name: &str, query: &str, fuzzy: bool) -> (found: bool)
    ensures
        found == is_match(name@, query@, fuzzy),
        query@.len() > 0 ==> folds_plainly(name@) && folds_plainly(query@),
{
    query.is_empty() || match_score(name, query, fuzzy).is_some()
}

/// Whether the lowercase form of `name` begins with that of `query`.
pub fn starts_with_ignore_case(name: &str, query: &str) -> (found: bool)
    ensures
        found == begins_with(lowercase(name@), lowercase(query@)),
        folds_plainly(name@),
        folds_plainly(query@),
{
    let folded_name = fold_case(name);
    let folded_query = fold_case(query);
    starts_with(&folded_name, &folded_query)
}

/// Turning fuzzy matching on only adds matches: what matches by prefix keeps
/// its kind and score.
pub proof fn law_fuzzy_only_adds_matches(name: Seq<char>, query: Seq<char>)
    ensures
        match_of(name, query, false) is Some ==> match_of(name, query, true) == match_of(
            name,
            query,
            false,
        ),
        is_match(name, query, false) ==> is_match(name, query, true),
{
}

/// A name always matches itself, exactly, and every prefix of it.
pub proof fn law_names_match_their_prefixes(name: Seq<char>, query: Seq<char>, fuzzy: bool)
    requires
        begins_with(name, query),
    ensures
        is_match(name, query, fuzzy),
        query.len() > 0 ==> match_of(name, query, fuzzy)->Some_0.kind.rank() <= 2,
        name.len() > 0 ==> match_of(name, name, fuzzy) == Some(
            MatchScore { kind: MatchKind::ExactCase, score: 0 },
        ),
{
}

// ---------------------------------------------------------------------------
// Order
// ---------------------------------------------------------------------------
/// Dictionary order up to the case of ASCII letters.
pub fn cmp_ignore_ascii_case(left: &str, right: &str) -> (order: Ordering)
    ensures
        order is Less <==> before(lowered(left@), lowered(right@)),
        order is Greater <==> before(lowered(right@), lowered(left@)),
        order is Equal <==> lowered(left@) == lowered(right@),
{
    let a = chars_of(left);
    let b = chars_of(right);
    let ghost la = lowered(left@);
    let ghost lb = lowered(right@);
    let mut i: usize = 0;
    while i < a.len() && i < b.len()
        invariant
            i <= a@.len(),
            i <= b@.len(),
            a@ == left@,
            b@ == right@,
            la == lowered(left@),
            lb == lowered(right@),
            before(la, lb) == before_from(la, lb, i + 0),
            before(lb, la) == before_from(lb, la, i + 0),
            forall|j: int| 0 <= j < i ==> la[j] == lb[j],
        decreases a@.len() - i,
    {
        let x = to_lower(a[i]);
        let y = to_lower(b[i]);
        proof {
            assert(la[i + 0] == x);
            assert(lb[i + 0] == y);
        }
        if x < y {
            return Ordering::Less;
        }
        if y < x {
            return Ordering::Greater;
        }
        i += 1;
    }
    if a.len() < b.len() {
        Ordering::Less
    } else if b.len() < a.len() {
        Ordering::Greater
    } else {
        proof {
            assert(la =~= lb);
        }
        Ordering::Equal
    }
}

} // verus!
