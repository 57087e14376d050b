//! Laws of texts: searching, trimming, splitting and joining.
use vstd::prelude::*;

use crate::text::{
    begins_with, behind_first_word, find_from, finishes_with, first_word, index_from, is_space,
    joined, lemma_find_from_bounds, lemma_word_bounds, lines_from, lines_of, matches_at, rfind_from,
    rfind_spec, space_from, split_from, trim_end_at, trim_start_at, trimmed, trimmed_end,
};

verus! {

/// A text begins with what it was put together from, and with nothing else.
pub proof fn law_prefixes(s: Seq<char>, p: Seq<char>, rest: Seq<char>)
    ensures
        begins_with(p + rest, p),
        begins_with(s, p) ==> p.len() <= s.len() && s == p + s.skip(p.len() as int),
        begins_with(s, p) ==> forall|i: int| 0 <= i < p.len() ==> #[trigger] s[i] == p[i],
{
    assert((p + rest).subrange(0, p.len() as int) =~= p);
    if begins_with(s, p) {
        assert(s.subrange(0, p.len() as int) == p);
        assert(s =~= p + s.skip(p.len() as int));
        assert forall|i: int| 0 <= i < p.len() implies #[trigger] s[i] == p[i] by {
            assert(s.subrange(0, p.len() as int)[i] == s[i]);
        }
    }
}

/// A text finishes with what it was put together from, and with nothing else.
pub proof fn law_suffixes(s: Seq<char>, p: Seq<char>, rest: Seq<char>)
    ensures
        finishes_with(rest + p, p),
        finishes_with(s, p) ==> p.len() <= s.len() && s == s.take(s.len() - p.len()) + p,
{
    let whole = rest + p;
    assert(whole.subrange(whole.len() - p.len(), whole.len() as int) =~= p);
    if finishes_with(s, p) {
        assert(s.subrange(s.len() - p.len(), s.len() as int) == p);
        assert(s =~= s.take(s.len() - p.len()) + p);
    }
}

/// A search finds the first place from where it starts, if there is one.
pub proof fn law_find_is_the_first(s: Seq<char>, pat: Seq<char>, from: int, k: int)
    requires
        0 <= from <= k,
        k + pat.len() <= s.len(),
        s.subrange(k, k + pat.len()) == pat,
    ensures
        find_from(s, pat, from) is Some,
        from <= find_from(s, pat, from)->Some_0 <= k,
        s.subrange(
            find_from(s, pat, from)->Some_0,
            find_from(s, pat, from)->Some_0 + pat.len(),
        ) == pat,
    decreases k - from,
{
    lemma_find_from_bounds(s, pat, from);
    if from < k && !matches_at(s, pat, from) {
        law_find_is_the_first(s, pat, from + 1, k);
    }
}

/// A search backwards finds the last place, if there is one.
pub proof fn law_rfind_is_the_last(s: Seq<char>, pat: Seq<char>, k: int)
    requires
        0 <= k,
        k + pat.len() <= s.len(),
        s.subrange(k, k + pat.len()) == pat,
    ensures
        rfind_spec(s, pat) is Some,
        k <= rfind_spec(s, pat)->Some_0,
        rfind_spec(s, pat)->Some_0 + pat.len() <= s.len(),
        s.subrange(rfind_spec(s, pat)->Some_0, rfind_spec(s, pat)->Some_0 + pat.len()) == pat,
{
    lemma_rfind_last(s, pat, s.len() - pat.len(), k);
}

proof fn lemma_rfind_last(s: Seq<char>, pat: Seq<char>, from: int, k: int)
    requires
        0 <= k <= from,
        matches_at(s, pat, k),
    ensures
        rfind_from(s, pat, from) is Some,
        k <= rfind_from(s, pat, from)->Some_0 <= from,
        matches_at(s, pat, rfind_from(s, pat, from)->Some_0),
    decreases from,
{
    if k < from && !matches_at(s, pat, from) {
        lemma_rfind_last(s, pat, from - 1, k);
    }
}

proof fn lemma_trim_start(a: Seq<char>, rest: Seq<char>, i: int)
    requires
        0 <= i <= a.len(),
        forall|k: int| 0 <= k < a.len() ==> is_space(#[trigger] a[k]),
        rest.len() == 0 || !is_space(rest[0]),
    ensures
        trim_start_at(a + rest, i) == a.len(),
    decreases a.len() - i,
{
    let s = a + rest;
    if i < a.len() {
        assert(s[i] == a[i]);
        lemma_trim_start(a, rest, i + 1);
    } else if rest.len() > 0 {
        assert(s[i] == rest[0]);
    }
}

proof fn lemma_trim_end(front: Seq<char>, b: Seq<char>, from: int, to: int)
    requires
        0 <= from <= front.len() <= to <= front.len() + b.len(),
        forall|k: int| 0 <= k < b.len() ==> is_space(#[trigger] b[k]),
        from == front.len() || !is_space(front.last()),
    ensures
        trim_end_at(front + b, from, to) == front.len(),
    decreases to - front.len(),
{
    let s = front + b;
    if front.len() < to {
        assert(s[to - 1] == b[to - 1 - front.len()]);
        lemma_trim_end(front, b, from, to - 1);
    } else if from < to {
        assert(s[to - 1] == front.last());
    }
}

/// White space around a text is trimmed, and nothing else.
pub proof fn law_trimming_drops_the_spaces_around(a: Seq<char>, s: Seq<char>, b: Seq<char>)
    requires
        forall|k: int| 0 <= k < a.len() ==> is_space(#[trigger] a[k]),
        forall|k: int| 0 <= k < b.len() ==> is_space(#[trigger] b[k]),
        s.len() > 0,
        !is_space(s[0]),
        !is_space(s.last()),
    ensures
        trimmed(a + s + b) == s,
        trimmed_end(a + s + b) == a + s,
{
    let whole = a + s + b;
    assert(whole =~= a + (s + b));
    assert((s + b)[0] == s[0]);
    lemma_trim_start(a, s + b, 0);
    let front = a + s;
    assert(front.last() == s.last());
    lemma_trim_end(front, b, a.len() as int, whole.len() as int);
    lemma_trim_end(front, b, 0, whole.len() as int);
    assert(whole.subrange(a.len() as int, front.len() as int) =~= s);
    assert(whole.take(front.len() as int) =~= front);
}

/// A text of white space alone is trimmed to nothing.
pub proof fn law_spaces_are_trimmed(a: Seq<char>)
    requires
        forall|k: int| 0 <= k < a.len() ==> is_space(#[trigger] a[k]),
    ensures
        trimmed(a) == Seq::<char>::empty(),
        trimmed_end(a) == Seq::<char>::empty(),
{
    let none = Seq::<char>::empty();
    assert(a + none =~= a);
    assert(none + a =~= a);
    lemma_trim_start(a, none, 0);
    lemma_trim_end(none, a, 0, a.len() as int);
    assert(trim_end_at(a, a.len() as int, a.len() as int) == a.len());
    assert(a.subrange(a.len() as int, a.len() as int) =~= none);
    assert(a.take(0) =~= none);
}

proof fn lemma_space_from(front: Seq<char>, word: Seq<char>, rest: Seq<char>, i: int)
    requires
        0 <= i <= word.len(),
        forall|k: int| 0 <= k < word.len() ==> !is_space(#[trigger] word[k]),
        rest.len() == 0 || is_space(rest[0]),
    ensures
        space_from(front + word + rest, front.len() + i) == front.len() + word.len(),
    decreases word.len() - i,
{
    let s = front + word + rest;
    if i < word.len() {
        assert(s[front.len() + i] == word[i]);
        lemma_space_from(front, word, rest, i + 1);
    } else if rest.len() > 0 {
        assert(s[front.len() + i] == rest[0]);
    }
}

/// The first word stands behind white space and ends before the next.
pub proof fn law_first_word_stands_between_spaces(a: Seq<char>, word: Seq<char>, rest: Seq<char>)
    requires
        forall|k: int| 0 <= k < a.len() ==> is_space(#[trigger] a[k]),
        forall|k: int| 0 <= k < word.len() ==> !is_space(#[trigger] word[k]),
        word.len() > 0,
        rest.len() == 0 || is_space(rest[0]),
    ensures
        first_word(a + word + rest) == word,
        behind_first_word(a + word + rest) == rest,
{
    let s = a + word + rest;
    assert(s =~= a + (word + rest));
    assert((word + rest)[0] == word[0]);
    lemma_trim_start(a, word + rest, 0);
    lemma_space_from(a, word, rest, 0);
    assert(s.subrange(a.len() as int, (a.len() + word.len()) as int) =~= word);
    assert(s.skip((a.len() + word.len()) as int) =~= rest);
}

proof fn lemma_trimmed_part(s: Seq<char>, from: int)
    requires
        0 <= from <= s.len(),
    ensures
        forall|i: int| from <= i < trim_start_at(s, from) ==> is_space(#[trigger] s[i]),
        space_from(s, from) < s.len() ==> is_space(s[space_from(s, from)]),
    decreases s.len() - from,
{
    if from < s.len() {
        lemma_trimmed_part(s, from + 1);
    }
}

/// Every text is white space, its first word and the rest, which is empty or
/// begins with white space.
pub proof fn law_text_around_the_first_word(s: Seq<char>) -> (around: (Seq<char>, Seq<char>))
    ensures
        s == around.0 + first_word(s) + around.1,
        forall|k: int| 0 <= k < around.0.len() ==> is_space(#[trigger] around.0[k]),
        forall|k: int| 0 <= k < first_word(s).len() ==> !is_space(#[trigger] first_word(s)[k]),
        around.1.len() == 0 || is_space(around.1[0]),
        first_word(s).len() == 0 ==> around.1.len() == 0,
{
    let a = trim_start_at(s, 0);
    lemma_word_bounds(s, 0);
    lemma_word_bounds(s, a);
    lemma_trimmed_part(s, 0);
    lemma_trimmed_part(s, a);
    let b = space_from(s, a);
    assert(s =~= s.take(a) + s.subrange(a, b) + s.skip(b));
    (s.take(a), s.skip(b))
}

/// The first place of a character is reached before any other of its kind.
pub proof fn law_index_is_the_first(s: Seq<char>, c: char, from: int)
    requires
        0 <= from <= s.len(),
    ensures
        from <= index_from(s, c, from) <= s.len(),
        index_from(s, c, from) < s.len() ==> s[index_from(s, c, from)] == c,
        forall|i: int| from <= i < index_from(s, c, from) ==> #[trigger] s[i] != c,
    decreases s.len() - from,
{
    if from < s.len() && s[from] != c {
        law_index_is_the_first(s, c, from + 1);
    }
}

/// The texts of a list, each ended by a newline.
pub open spec fn ended_lines(list: Seq<Seq<char>>) -> Seq<char>
    decreases list.len(),
{
    if list.len() == 0 {
        Seq::empty()
    } else {
        list[0] + "\n"@ + ended_lines(list.skip(1))
    }
}

proof fn lemma_ended_lines(front: Seq<char>, list: Seq<Seq<char>>)
    requires
        forall|k: int, i: int|
            0 <= k < list.len() && 0 <= i < list[k].len() ==> #[trigger] list[k][i] != '\n',
        forall|k: int| 0 <= k < list.len() ==> (#[trigger] list[k]).len() == 0 || list[k].last()
            != '\r',
    ensures
        lines_from(front + ended_lines(list), front.len() as int) == list,
    decreases list.len(),
{
    reveal_strlit("\n");
    let s = front + ended_lines(list);
    if list.len() == 0 {
        assert(s =~= front);
        assert(lines_from(s, front.len() as int) =~= list);
    } else {
        let rest = list.skip(1);
        let head = list[0];
        let next = front + head + "\n"@;
        assert(s =~= next + ended_lines(rest));
        assert forall|k: int, i: int|
            0 <= k < rest.len() && 0 <= i < rest[k].len() implies #[trigger] rest[k][i] != '\n' by {
            assert(rest[k] == list[k + 1]);
            assert(list[k + 1][i] != '\n');
        }
        assert forall|k: int| 0 <= k < rest.len() implies (#[trigger] rest[k]).len() == 0
            || rest[k].last() != '\r' by {
            assert(rest[k] == list[k + 1]);
        }
        lemma_ended_lines(next, rest);
        let start = front.len() as int;
        let end = start + head.len();
        law_index_is_the_first(s, '\n', start);
        assert(s[end] == '\n');
        assert forall|i: int| start <= i < end implies s[i] != '\n' by {
            assert(s[i] == list[0][i - start]);
        }
        assert(index_from(s, '\n', start) == end);
        if head.len() > 0 {
            assert(s[end - 1] == head.last());
        }
        assert(s.subrange(start, end) =~= head);
        assert(lines_from(s, start) =~= list);
    }
}

/// Lines that were written, each with a newline behind it, are read back.
pub proof fn law_written_lines_are_read_back(list: Seq<Seq<char>>)
    requires
        forall|k: int, i: int|
            0 <= k < list.len() && 0 <= i < list[k].len() ==> #[trigger] list[k][i] != '\n',
        forall|k: int| 0 <= k < list.len() ==> (#[trigger] list[k]).len() == 0 || list[k].last()
            != '\r',
    ensures
        lines_of(ended_lines(list)) == list,
{
    lemma_ended_lines(Seq::empty(), list);
    assert(Seq::<char>::empty() + ended_lines(list) =~= ended_lines(list));
}

/// Joining one more part puts the separator and the part behind the rest.
pub proof fn law_joining_appends(parts: Seq<Seq<char>>, last: Seq<char>, sep: Seq<char>)
    ensures
        joined(seq![last], sep) == last,
        parts.len() > 0 ==> joined(parts.push(last), sep) == joined(parts, sep) + sep + last,
        parts.len() > 0 ==> joined(seq![last] + parts, sep) == last + sep + joined(parts, sep),
    decreases parts.len(),
{
    if parts.len() > 0 {
        assert(parts.push(last).drop_last() =~= parts);
        let all = seq![last] + parts;
        if parts.len() == 1 {
            assert(all.drop_last() =~= seq![last]);
            assert(joined(all.drop_last(), sep) == last);
            assert(all.last() == parts[0]);
        } else {
            law_joining_appends(parts.drop_last(), last, sep);
            assert(all.drop_last() =~= seq![last] + parts.drop_last());
            assert(all.last() == parts.last());
            assert(joined(all, sep) =~= last + sep + joined(parts, sep));
        }
    }
}

proof fn lemma_split_joins(s: Seq<char>, sep: Seq<char>, start: int)
    requires
        0 <= start <= s.len(),
        sep.len() > 0,
    ensures
        split_from(s, sep, start).len() > 0,
        joined(split_from(s, sep, start), sep) == s.skip(start),
    decreases s.len() - start,
{
    lemma_find_from_bounds(s, sep, start);
    match find_from(s, sep, start) {
        Some(i) => {
            let rest = split_from(s, sep, i + sep.len());
            lemma_split_joins(s, sep, i + sep.len());
            law_joining_appends(rest, s.subrange(start, i), sep);
            assert(s.subrange(i, i + sep.len()) == sep);
            assert(s.skip(start) =~= s.subrange(start, i) + s.subrange(i, i + sep.len()) + s.skip(
                i + sep.len(),
            ));
        },
        None => {
            assert(s.subrange(start, s.len() as int) =~= s.skip(start));
        },
    }
}

/// The parts of a text, joined by what separates them, are the text.
pub proof fn law_split_parts_join_again(s: Seq<char>, sep: Seq<char>)
    requires
        sep.len() > 0,
    ensures
        joined(split_from(s, sep, 0), sep) == s,
{
    lemma_split_joins(s, sep, 0);
    assert(s.skip(0) =~= s);
}

proof fn lemma_no_place(s: Seq<char>, c: char, from: int)
    requires
        0 <= from,
        forall|i: int| from <= i < s.len() ==> #[trigger] s[i] != c,
    ensures
        find_from(s, seq![c], from) is None,
    decreases s.len() - from + 1,
{
    if from + 1 <= s.len() {
        assert(s.subrange(from, from + 1)[0] == s[from]);
        lemma_no_place(s, c, from + 1);
    }
}

proof fn lemma_first_place(s: Seq<char>, c: char, from: int, k: int)
    requires
        0 <= from <= k < s.len(),
        s[k] == c,
        forall|i: int| from <= i < k ==> #[trigger] s[i] != c,
    ensures
        find_from(s, seq![c], from) == Some(k),
    decreases k - from,
{
    if from < k {
        assert(s.subrange(from, from + 1)[0] == s[from]);
        lemma_first_place(s, c, from + 1, k);
    } else {
        assert(s.subrange(k, k + 1) =~= seq![c]);
    }
}

proof fn lemma_join_splits(front: Seq<char>, parts: Seq<Seq<char>>, c: char)
    requires
        parts.len() > 0,
        forall|k: int, i: int|
            0 <= k < parts.len() && 0 <= i < parts[k].len() ==> #[trigger] parts[k][i] != c,
    ensures
        split_from(front + joined(parts, seq![c]), seq![c], front.len() as int) == parts,
    decreases parts.len(),
{
    let sep = seq![c];
    let s = front + joined(parts, sep);
    let start = front.len() as int;
    let head = parts[0];
    if parts.len() == 1 {
        assert forall|i: int| start <= i < s.len() implies #[trigger] s[i] != c by {
            assert(s[i] == parts[0][i - start]);
        }
        lemma_no_place(s, c, start);
        assert(s.subrange(start, s.len() as int) =~= head);
        assert(split_from(s, sep, start) =~= parts);
    } else {
        let rest = parts.skip(1);
        law_joining_appends(rest, head, sep);
        assert(seq![head] + rest =~= parts);
        let next = front + head + sep;
        assert(s =~= next + joined(rest, sep));
        assert forall|k: int, i: int|
            0 <= k < rest.len() && 0 <= i < rest[k].len() implies #[trigger] rest[k][i] != c by {
            assert(rest[k] == parts[k + 1]);
            assert(parts[k + 1][i] != c);
        }
        lemma_join_splits(next, rest, c);
        let end = start + head.len();
        assert forall|i: int| start <= i < end implies #[trigger] s[i] != c by {
            assert(s[i] == parts[0][i - start]);
        }
        assert(s[end] == sep[0]);
        lemma_first_place(s, c, start, end);
        assert(s.subrange(start, end) =~= head);
        assert(split_from(s, sep, start) =~= parts);
    }
}

/// Parts that were joined by a character that none of them holds are split again.
pub proof fn law_joined_parts_split_again(parts: Seq<Seq<char>>, c: char)
    requires
        parts.len() > 0,
        forall|k: int, i: int|
            0 <= k < parts.len() && 0 <= i < parts[k].len() ==> #[trigger] parts[k][i] != c,
    ensures
        split_from(joined(parts, seq![c]), seq![c], 0) == parts,
{
    lemma_join_splits(Seq::empty(), parts, c);
    assert(Seq::<char>::empty() + joined(parts, seq![c]) =~= joined(parts, seq![c]));
}

} // verus!
