//! Text as sequences of characters: the operations on strings that the rest
//! of the library is built from, each stated over `Seq<char>`.
use std::sync::Arc;
use vstd::prelude::*;

verus! {

/// `String::push` appends one character.
pub assume_specification[ String::push ](s: &mut String, c: char)
    ensures
        final(s)@ == old(s)@.push(c),
;

/// `String::push_str` appends all characters of a string slice.
pub assume_specification[ String::push_str ](s: &mut String, tail: &str)
    ensures
        final(s)@ == old(s)@ + tail@,
;

/// Calls `Arc::clone`, which hands out another pointer to the same value.
#[verifier::external_body]
pub(crate) fn share<T>(value: &Arc<T>) -> (shared: Arc<T>)
    ensures
        shared == *value,
{
    Arc::clone(value)
}

/// The characters of each string of a list.
pub open spec fn texts(list: Seq<String>) -> Seq<Seq<char>> {
    Seq::new(list.len(), |i: int| list[i]@)
}

/// The characters of an optional string.
pub open spec fn opt_text(value: Option<String>) -> Option<Seq<char>> {
    match value {
        Some(text) => Some(text@),
        None => None,
    }
}

/// The characters of an optional string slice.
pub open spec fn opt_str(value: Option<&str>) -> Option<Seq<char>> {
    match value {
        Some(text) => Some(text@),
        None => None,
    }
}

/// Borrows the text of an optional string.
pub fn as_text(value: &Option<String>) -> (text: Option<&str>)
    ensures
        opt_str(text) == opt_text(*value),
{
    match value {
        Some(text) => Some(text.as_str()),
        None => None,
    }
}

/// The characters of a string slice, for indexed access.
pub fn chars_of(text: &str) -> (chars: Vec<char>)
    ensures
        chars@ == text@,
{
    let mut chars: Vec<char> = Vec::new();
    for c in it: text.chars()
        invariant
            chars@ == it.seq().take(it.index() as int),
            it.seq() == text@,
    {
        chars.push(c);
    }
    chars
}

/// The string made of the characters from `from` up to, not including, `to`.
pub fn text_range(chars: &[char], from: usize, to: usize) -> (text: String)
    requires
        from <= to <= chars@.len(),
    ensures
        text@ == chars@.subrange(from as int, to as int),
{
    let mut text = String::new();
    let mut i: usize = from;
    while i < to
        invariant
            from <= i <= to <= chars@.len(),
            text@ == chars@.subrange(from as int, i as int),
        decreases to - i,
    {
        text.push(chars[i]);
        i += 1;
    }
    text
}

/// Whether two strings have the same characters.
pub fn same(left: &str, right: &str) -> (equal: bool)
    ensures
        equal == (left@ == right@),
{
    if left.len() != right.len() {
        return false;
    }
    let a = chars_of(left);
    let b = chars_of(right);
    same_chars(&a, &b)
}

/// Whether two character lists are equal.
pub fn same_chars(a: &[char], b: &[char]) -> (equal: bool)
    ensures
        equal == (a@ == b@),
{
    if a.len() != b.len() {
        return false;
    }
    let mut i: usize = 0;
    while i < a.len()
        invariant
            i <= a@.len(),
            a@.len() == b@.len(),
            forall|j: int| 0 <= j < i ==> a@[j] == b@[j],
        decreases a@.len() - i,
    {
        if a[i] != b[i] {
            return false;
        }
        i += 1;
    }
    proof {
        assert(a@ =~= b@);
    }
    true
}

/// Whether two optional texts are both absent or both present and equal.
pub fn same_optional(left: &Option<String>, right: &Option<String>) -> (equal: bool)
    ensures
        equal == (opt_text(*left) == opt_text(*right)),
{
    match (left, right) {
        (Some(a), Some(b)) => same(a, b),
        (None, None) => true,
        _ => false,
    }
}

/// Whether two lists of strings are equal, element by element.
pub fn same_texts(left: &[String], right: &[String]) -> (equal: bool)
    ensures
        equal == (texts(left@) == texts(right@)),
{
    if left.len() != right.len() {
        proof {
            assert(texts(left@).len() != texts(right@).len());
        }
        return false;
    }
    let mut i: usize = 0;
    while i < left.len()
        invariant
            i <= left@.len(),
            left@.len() == right@.len(),
            forall|j: int| 0 <= j < i ==> left@[j]@ == right@[j]@,
        decreases left@.len() - i,
    {
        if !same(&left[i], &right[i]) {
            proof {
                assert(texts(left@)[i as int] != texts(right@)[i as int]);
            }
            return false;
        }
        i += 1;
    }
    proof {
        assert(texts(left@) =~= texts(right@));
    }
    true
}

/// Whether a list of strings holds the given text.
pub fn holds_text(list: &[String], text: &str) -> (found: bool)
    ensures
        found == texts(list@).contains(text@),
{
    let mut i: usize = 0;
    while i < list.len()
        invariant
            i <= list@.len(),
            forall|j: int| 0 <= j < i ==> texts(list@)[j] != text@,
        decreases list@.len() - i,
    {
        if same(&list[i], text) {
            proof {
                assert(texts(list@)[i as int] == text@);
            }
            return true;
        }
        i += 1;
    }
    false
}

// ---------------------------------------------------------------------------
// ASCII case
// ---------------------------------------------------------------------------
/// The ASCII lowercase form of a character; other characters stay.
pub open spec fn lower(c: char) -> char {
    if 'A' <= c && c <= 'Z' {
        (c as u32 + 32) as char
    } else {
        c
    }
}

/// Every character in its ASCII lowercase form.
pub open spec fn lowered(s: Seq<char>) -> Seq<char> {
    Seq::new(s.len(), |i: int| lower(s[i]))
}

/// Computes [`lower`].
pub fn to_lower(c: char) -> (r: char)
    ensures
        r == lower(c),
{
    if 'A' <= c && c <= 'Z' {
        ((c as u8) + 32u8) as char
    } else {
        c
    }
}

/// Whether two strings agree up to the case of ASCII letters.
pub fn same_ignoring_case(left: &str, right: &str) -> (equal: bool)
    ensures
        equal == (lowered(left@) == lowered(right@)),
{
    let a = chars_of(left);
    let b = chars_of(right);
    if a.len() != b.len() {
        proof {
            assert(lowered(left@).len() != lowered(right@).len());
        }
        return false;
    }
    let mut i: usize = 0;
    while i < a.len()
        invariant
            i <= a@.len(),
            a@ == left@,
            b@ == right@,
            a@.len() == b@.len(),
            forall|j: int| 0 <= j < i ==> lower(a@[j]) == lower(b@[j]),
        decreases a@.len() - i,
    {
        if to_lower(a[i]) != to_lower(b[i]) {
            proof {
                assert(lowered(left@)[i as int] != lowered(right@)[i as int]);
            }
            return false;
        }
        i += 1;
    }
    proof {
        assert(lowered(left@) =~= lowered(right@));
    }
    true
}

/// Whether some string of the list agrees with the text up to ASCII case.
pub open spec fn holds_ignoring_case_spec(list: Seq<String>, text: Seq<char>) -> bool {
    exists|i: int| 0 <= i < list.len() && lowered(#[trigger] list[i]@) == lowered(text)
}

/// Computes [`holds_ignoring_case_spec`].
pub fn holds_ignoring_case(list: &[String], text: &str) -> (found: bool)
    ensures
        found == holds_ignoring_case_spec(list@, text@),
{
    let mut i: usize = 0;
    while i < list.len()
        invariant
            i <= list@.len(),
            forall|j: int| 0 <= j < i ==> lowered(#[trigger] list@[j]@) != lowered(text@),
        decreases list@.len() - i,
    {
        if same_ignoring_case(&list[i], text) {
            return true;
        }
        i += 1;
    }
    false
}

// ---------------------------------------------------------------------------
// Prefixes, suffixes and searching
// ---------------------------------------------------------------------------
/// Whether `pat` stands in `s` at position `i`.
pub open spec fn matches_at(s: Seq<char>, pat: Seq<char>, i: int) -> bool {
    0 <= i && i + pat.len() <= s.len() && s.subrange(i, i + pat.len()) == pat
}

/// Computes [`matches_at`].
pub fn is_at(s: &[char], pat: &[char], i: usize) -> (found: bool)
    ensures
        found == matches_at(s@, pat@, i as int),
{
    if i > s.len() || pat.len() > s.len() - i {
        return false;
    }
    let n: usize = s.len();
    let mut j: usize = 0;
    while j < pat.len()
        invariant
            j <= pat@.len(),
            n == s@.len(),
            i + pat@.len() <= n,
            forall|k: int| 0 <= k < j ==> s@[i + k] == pat@[k],
        decreases pat@.len() - j,
    {
        if s[i + j] != pat[j] {
            proof {
                assert(s@.subrange(i as int, i + pat@.len())[j as int] == s@[i + j]);
            }
            return false;
        }
        j += 1;
    }
    proof {
        assert(s@.subrange(i as int, i + pat@.len()) =~= pat@);
    }
    true
}

/// Whether `s` begins with `prefix`.
pub open spec fn begins_with(s: Seq<char>, prefix: Seq<char>) -> bool {
    matches_at(s, prefix, 0)
}

/// Whether `s` ends with `suffix`.
pub open spec fn finishes_with(s: Seq<char>, suffix: Seq<char>) -> bool {
    matches_at(s, suffix, s.len() - suffix.len())
}

/// Computes [`begins_with`].
pub fn starts_with(text: &str, prefix: &str) -> (found: bool)
    ensures
        found == begins_with(text@, prefix@),
{
    let s = chars_of(text);
    let p = chars_of(prefix);
    is_at(&s, &p, 0)
}

/// Computes [`finishes_with`].
pub fn ends_with(text: &str, suffix: &str) -> (found: bool)
    ensures
        found == finishes_with(text@, suffix@),
{
    let s = chars_of(text);
    let p = chars_of(suffix);
    if p.len() > s.len() {
        return false;
    }
    is_at(&s, &p, s.len() - p.len())
}

/// The first position at or after `from` where `pat` stands.
pub open spec fn find_from(s: Seq<char>, pat: Seq<char>, from: int) -> Option<int>
    decreases s.len() - from + 1,
{
    if from < 0 || from + pat.len() > s.len() {
        None
    } else if matches_at(s, pat, from) {
        Some(from)
    } else {
        find_from(s, pat, from + 1)
    }
}

/// Computes [`find_from`].
pub fn find(s: &[char], pat: &[char], from: usize) -> (found: Option<usize>)
    ensures
        match found {
            Some(i) => find_from(s@, pat@, from as int) == Some(i as int) && from <= i && i + pat@.len()
                <= s@.len() && matches_at(s@, pat@, i as int),
            None => find_from(s@, pat@, from as int) is None,
        },
{
    let mut i: usize = from;
    while i <= s.len() && pat.len() <= s.len() - i
        invariant
            from <= i,
            find_from(s@, pat@, from as int) == find_from(s@, pat@, i as int),
        decreases s@.len() - i + 1,
    {
        if is_at(s, pat, i) {
            return Some(i);
        }
        if i == s.len() {
            proof {
                assert(find_from(s@, pat@, i + 1) is None);
            }
            return None;
        }
        i += 1;
    }
    None
}

/// The last position at or before `from` where `pat` stands.
pub open spec fn rfind_from(s: Seq<char>, pat: Seq<char>, from: int) -> Option<int>
    decreases from + 1,
{
    if from < 0 {
        None
    } else if matches_at(s, pat, from) {
        Some(from)
    } else {
        rfind_from(s, pat, from - 1)
    }
}

/// The last position where `pat` stands in `s`.
pub open spec fn rfind_spec(s: Seq<char>, pat: Seq<char>) -> Option<int> {
    rfind_from(s, pat, s.len() - pat.len())
}

pub proof fn lemma_rfind_bounds(s: Seq<char>, pat: Seq<char>, from: int)
    ensures
        rfind_from(s, pat, from) matches Some(i) ==> 0 <= i <= from && matches_at(s, pat, i),
    decreases from + 1,
{
    if from >= 0 && !matches_at(s, pat, from) {
        lemma_rfind_bounds(s, pat, from - 1);
    }
}

/// Computes [`rfind_spec`].
pub fn rfind(s: &[char], pat: &[char]) -> (found: Option<usize>)
    ensures
        match found {
            Some(i) => rfind_spec(s@, pat@) == Some(i as int) && i + pat@.len() <= s@.len()
                && matches_at(s@, pat@, i as int),
            None => rfind_spec(s@, pat@) is None,
        },
{
    if pat.len() > s.len() {
        return None;
    }
    let mut i: usize = s.len() - pat.len();
    loop
        invariant
            i + pat@.len() <= s@.len(),
            rfind_spec(s@, pat@) == rfind_from(s@, pat@, i as int),
        decreases i,
    {
        if is_at(s, pat, i) {
            return Some(i);
        }
        if i == 0 {
            proof {
                assert(rfind_from(s@, pat@, -1) is None);
            }
            return None;
        }
        i -= 1;
    }
}

// ---------------------------------------------------------------------------
// White space
// ---------------------------------------------------------------------------
/// The characters with the Unicode `White_Space` property.
pub open spec fn is_space(c: char) -> bool {
    let n = c as u32;
    ||| 0x9 <= n <= 0xd
    ||| n == 0x20
    ||| n == 0x85
    ||| n == 0xa0
    ||| n == 0x1680
    ||| 0x2000 <= n <= 0x200a
    ||| n == 0x2028
    ||| n == 0x2029
    ||| n == 0x202f
    ||| n == 0x205f
    ||| n == 0x3000
}

/// `char::is_whitespace` tests for the Unicode `White_Space` property, which
/// [`is_space`] lists.
pub assume_specification[ char::is_whitespace ](c: char) -> (space: bool)
    ensures
        space == is_space(c),
;

/// Where the text after leading white space begins.
pub open spec fn trim_start_at(s: Seq<char>, from: int) -> int
    decreases s.len() - from,
{
    if 0 <= from < s.len() && is_space(s[from]) {
        trim_start_at(s, from + 1)
    } else {
        from
    }
}

/// Where the text before trailing white space ends, not before `from`.
pub open spec fn trim_end_at(s: Seq<char>, from: int, to: int) -> int
    decreases to - from,
{
    if from < to && 0 < to <= s.len() && is_space(s[to - 1]) {
        trim_end_at(s, from, to - 1)
    } else {
        to
    }
}

/// The text without leading and trailing white space.
pub open spec fn trimmed(s: Seq<char>) -> Seq<char> {
    let from = trim_start_at(s, 0);
    s.subrange(from, trim_end_at(s, from, s.len() as int))
}

/// Computes [`trimmed`].
pub fn trim_chars(s: &[char]) -> (text: String)
    ensures
        text@ == trimmed(s@),
{
    let mut from: usize = 0;
    while from < s.len() && s[from].is_whitespace()
        invariant
            from <= s@.len(),
            trim_start_at(s@, 0) == trim_start_at(s@, from as int),
        decreases s@.len() - from,
    {
        from += 1;
    }
    let mut to: usize = s.len();
    while to > from && s[to - 1].is_whitespace()
        invariant
            from <= to <= s@.len(),
            trim_end_at(s@, from as int, s@.len() as int) == trim_end_at(s@, from as int, to as int),
        decreases to,
    {
        to -= 1;
    }
    text_range(s, from, to)
}

/// Computes [`trimmed`] of a string.
pub fn trim(text: &str) -> (inner: String)
    ensures
        inner@ == trimmed(text@),
{
    let s = chars_of(text);
    trim_chars(&s)
}

/// The text without trailing white space.
pub open spec fn trimmed_end(s: Seq<char>) -> Seq<char> {
    s.take(trim_end_at(s, 0, s.len() as int))
}

/// Computes [`trimmed_end`].
pub fn trim_end(text: &str) -> (inner: String)
    ensures
        inner@ == trimmed_end(text@),
{
    let s = chars_of(text);
    let mut to: usize = s.len();
    while to > 0 && s[to - 1].is_whitespace()
        invariant
            to <= s@.len(),
            trim_end_at(s@, 0, s@.len() as int) == trim_end_at(s@, 0, to as int),
        decreases to,
    {
        to -= 1;
    }
    proof {
        assert(s@.take(to as int) =~= s@.subrange(0, to as int));
    }
    text_range(&s, 0, to)
}

/// The first white space at or after `from`, or the length.
pub open spec fn space_from(s: Seq<char>, from: int) -> int
    decreases s.len() - from,
{
    if 0 <= from < s.len() && !is_space(s[from]) {
        space_from(s, from + 1)
    } else {
        from
    }
}

/// The first word of a text between white space, empty where there is none.
pub open spec fn first_word(s: Seq<char>) -> Seq<char> {
    let from = trim_start_at(s, 0);
    s.subrange(from, space_from(s, from))
}

/// The text behind its first word.
pub open spec fn behind_first_word(s: Seq<char>) -> Seq<char> {
    s.skip(space_from(s, trim_start_at(s, 0)))
}

pub proof fn lemma_word_bounds(s: Seq<char>, from: int)
    requires
        0 <= from <= s.len(),
    ensures
        from <= trim_start_at(s, from) <= s.len(),
        from <= space_from(s, from) <= s.len(),
        forall|i: int| from <= i < space_from(s, from) ==> !is_space(s[i]),
        trim_start_at(s, from) < s.len() ==> !is_space(s[trim_start_at(s, from)]),
    decreases s.len() - from,
{
    if from < s.len() {
        lemma_word_bounds(s, from + 1);
    }
}

/// Where the first word of `s[from..]` begins and ends.
pub fn word_bounds(s: &[char], from: usize) -> (bounds: (usize, usize))
    requires
        from <= s@.len(),
    ensures
        bounds.0 == trim_start_at(s@, from as int),
        bounds.1 == space_from(s@, bounds.0 as int),
        from <= bounds.0 <= bounds.1 <= s@.len(),
{
    let mut a: usize = from;
    while a < s.len() && s[a].is_whitespace()
        invariant
            from <= a <= s@.len(),
            trim_start_at(s@, from as int) == trim_start_at(s@, a as int),
        decreases s@.len() - a,
    {
        a += 1;
    }
    let mut b: usize = a;
    while b < s.len() && !s[b].is_whitespace()
        invariant
            a <= b <= s@.len(),
            space_from(s@, a as int) == space_from(s@, b as int),
        decreases s@.len() - b,
    {
        b += 1;
    }
    (a, b)
}

/// Computes [`first_word`].
pub fn first_word_text(text: &str) -> (word: String)
    ensures
        word@ == first_word(text@),
{
    let s = chars_of(text);
    let (a, b) = word_bounds(&s, 0);
    text_range(&s, a, b)
}

/// Reading the first word of a tail agrees with reading it in place.
pub proof fn lemma_word_shift(s: Seq<char>, a: int, i: int)
    requires
        0 <= a <= i <= s.len(),
    ensures
        trim_start_at(s, i) == a + trim_start_at(s.skip(a), i - a),
        space_from(s, i) == a + space_from(s.skip(a), i - a),
    decreases s.len() - i,
{
    if i < s.len() {
        assert(s.skip(a)[i - a] == s[i]);
        lemma_word_shift(s, a, i + 1);
    }
}

// ---------------------------------------------------------------------------
// Lines, splitting and joining
// ---------------------------------------------------------------------------
/// The first position at or after `from` that holds `c`, or the length.
pub open spec fn index_from(s: Seq<char>, c: char, from: int) -> int
    decreases s.len() - from,
{
    if 0 <= from < s.len() && s[from] != c {
        index_from(s, c, from + 1)
    } else {
        from
    }
}

/// Computes [`index_from`].
pub fn index_of(s: &[char], c: char, from: usize) -> (i: usize)
    requires
        from <= s@.len(),
    ensures
        i == index_from(s@, c, from as int),
        from <= i <= s@.len(),
        i < s@.len() ==> s@[i as int] == c,
        forall|j: int| from <= j < i ==> s@[j] != c,
{
    let mut i: usize = from;
    while i < s.len() && s[i] != c
        invariant
            from <= i <= s@.len(),
            index_from(s@, c, from as int) == index_from(s@, c, i as int),
            forall|j: int| from <= j < i ==> s@[j] != c,
        decreases s@.len() - i,
    {
        i += 1;
    }
    i
}

pub proof fn lemma_index_from_bounds(s: Seq<char>, c: char, from: int)
    requires
        0 <= from <= s.len(),
    ensures
        from <= index_from(s, c, from) <= s.len(),
    decreases s.len() - from,
{
    if from < s.len() && s[from] != c {
        lemma_index_from_bounds(s, c, from + 1);
    }
}

/// The lines of `s[start..]`: each ends at a newline, which with a carriage
/// return before it is not part of the line; a last line may lack the newline.
pub open spec fn lines_from(s: Seq<char>, start: int) -> Seq<Seq<char>>
    decreases s.len() - start,
    via lines_from_decreases
{
    if start < 0 || start >= s.len() {
        Seq::empty()
    } else {
        let end = index_from(s, '\n', start);
        if end >= s.len() {
            seq![s.subrange(start, s.len() as int)]
        } else {
            let stop = if end > start && s[end - 1] == '\r' {
                end - 1
            } else {
                end
            };
            seq![s.subrange(start, stop)] + lines_from(s, end + 1)
        }
    }
}

#[via_fn]
proof fn lines_from_decreases(s: Seq<char>, start: int) {
    if 0 <= start < s.len() {
        lemma_index_from_bounds(s, '\n', start);
    }
}

/// The lines of a text.
pub open spec fn lines_of(s: Seq<char>) -> Seq<Seq<char>> {
    lines_from(s, 0)
}

/// Computes [`lines_of`].
pub fn lines(text: &str) -> (out: Vec<String>)
    ensures
        texts(out@) == lines_of(text@),
{
    let s = chars_of(text);
    let mut out: Vec<String> = Vec::new();
    let mut start: usize = 0;
    proof {
        assert(texts(out@) + lines_from(s@, 0) =~= lines_of(text@));
    }
    while start < s.len()
        invariant
            start <= s@.len(),
            s@ == text@,
            texts(out@) + lines_from(s@, start as int) == lines_of(text@),
        decreases s@.len() - start,
    {
        let end = index_of(&s, '\n', start);
        let ghost before = out@;
        if end >= s.len() {
            out.push(text_range(&s, start, s.len()));
            start = s.len();
            proof {
                assert(texts(out@) + lines_from(s@, start as int) =~= texts(before)
                    + seq![out@[before.len() as int]@]);
            }
        } else {
            let stop = if end > start && s[end - 1] == '\r' {
                end - 1
            } else {
                end
            };
            out.push(text_range(&s, start, stop));
            proof {
                assert(texts(out@) + lines_from(s@, end + 1) =~= texts(before) + (
                seq![out@[before.len() as int]@] + lines_from(s@, end + 1)));
            }
            start = end + 1;
        }
    }
    proof {
        assert(texts(out@) + lines_from(s@, start as int) =~= texts(out@));
    }
    out
}

/// The parts of `s[start..]` between occurrences of a non-empty separator.
pub open spec fn split_from(s: Seq<char>, sep: Seq<char>, start: int) -> Seq<Seq<char>>
    decreases s.len() - start,
    via split_from_decreases
{
    if start < 0 || start > s.len() || sep.len() == 0 {
        Seq::empty()
    } else {
        match find_from(s, sep, start) {
            Some(i) => seq![s.subrange(start, i)] + split_from(s, sep, i + sep.len()),
            None => seq![s.subrange(start, s.len() as int)],
        }
    }
}

pub proof fn lemma_find_from_bounds(s: Seq<char>, pat: Seq<char>, from: int)
    ensures
        find_from(s, pat, from) matches Some(i) ==> from <= i && 0 <= i && i + pat.len() <= s.len()
            && matches_at(s, pat, i),
    decreases s.len() - from + 1,
{
    if !(from < 0 || from + pat.len() > s.len()) && !matches_at(s, pat, from) {
        lemma_find_from_bounds(s, pat, from + 1);
    }
}

#[via_fn]
proof fn split_from_decreases(s: Seq<char>, sep: Seq<char>, start: int) {
    lemma_find_from_bounds(s, sep, start);
}

/// Computes [`split_from`] from the start of a text.
pub fn split(text: &str, sep: &str) -> (out: Vec<String>)
    requires
        sep@.len() > 0,
    ensures
        texts(out@) == split_from(text@, sep@, 0),
        out@.len() > 0,
{
    let s = chars_of(text);
    let p = chars_of(sep);
    let mut out: Vec<String> = Vec::new();
    let mut start: usize = 0;
    proof {
        assert(texts(out@) + split_from(s@, p@, 0) =~= split_from(text@, sep@, 0));
    }
    loop
        invariant
            start <= s@.len(),
            s@ == text@,
            p@ == sep@,
            p@.len() > 0,
            texts(out@) + split_from(s@, p@, start as int) == split_from(text@, sep@, 0),
        decreases s@.len() - start,
    {
        let ghost before = out@;
        let n: usize = s.len();
        match find(&s, &p, start) {
            Some(i) => {
                assert(i + p@.len() <= n);
                out.push(text_range(&s, start, i));
                proof {
                    assert(texts(out@) + split_from(s@, p@, i + p@.len()) =~= texts(before) + (
                    seq![out@[before.len() as int]@] + split_from(s@, p@, i + p@.len())));
                }
                start = i + p.len();
            },
            None => {
                out.push(text_range(&s, start, s.len()));
                proof {
                    assert(texts(out@) =~= texts(before) + seq![out@[before.len() as int]@]);
                }
                return out;
            },
        }
    }
}

/// The parts one after the other with a separator between neighbours.
pub open spec fn joined(parts: Seq<Seq<char>>, sep: Seq<char>) -> Seq<char>
    decreases parts.len(),
{
    if parts.len() == 0 {
        Seq::empty()
    } else if parts.len() == 1 {
        parts[0]
    } else {
        joined(parts.drop_last(), sep) + sep + parts.last()
    }
}

/// Joined parts can be told apart again where none of them holds the separator.
pub proof fn law_joined_parts_are_told_apart(a: Seq<Seq<char>>, b: Seq<Seq<char>>, sep: char)
    requires
        a.len() > 0,
        b.len() > 0,
        forall|i: int| 0 <= i < a.len() ==> !(#[trigger] a[i]).contains(sep),
        forall|i: int| 0 <= i < b.len() ==> !(#[trigger] b[i]).contains(sep),
        joined(a, seq![sep]) == joined(b, seq![sep]),
    ensures
        a == b,
    decreases a.len() + b.len(),
{
    let whole = joined(a, seq![sep]);
    if a.len() == 1 && b.len() == 1 {
        assert(a =~= b);
    } else if a.len() == 1 {
        let at = joined(b.drop_last(), seq![sep]).len() as int;
        assert(whole[at] == sep);
        assert(a[0].contains(sep));
    } else if b.len() == 1 {
        let at = joined(a.drop_last(), seq![sep]).len() as int;
        assert(whole[at] == sep);
        assert(b[0].contains(sep));
    } else {
        let x = joined(a.drop_last(), seq![sep]);
        let y = joined(b.drop_last(), seq![sep]);
        assert(whole == x + seq![sep] + a.last());
        assert(whole == y + seq![sep] + b.last());
        if x.len() > y.len() {
            assert(whole[x.len() as int] == sep);
            assert(b.last()[x.len() - y.len() - 1] == sep);
            assert(b[b.len() - 1].contains(sep));
        }
        if y.len() > x.len() {
            assert(whole[y.len() as int] == sep);
            assert(a.last()[y.len() - x.len() - 1] == sep);
            assert(a[a.len() - 1].contains(sep));
        }
        assert(x =~= whole.take(x.len() as int));
        assert(y =~= whole.take(y.len() as int));
        assert(a.last() =~= whole.skip(x.len() as int + 1));
        assert(b.last() =~= whole.skip(y.len() as int + 1));
        law_joined_parts_are_told_apart(a.drop_last(), b.drop_last(), sep);
        assert(a =~= a.drop_last().push(a.last()));
        assert(b =~= b.drop_last().push(b.last()));
    }
}

/// Computes [`joined`].
pub fn join(parts: &[String], sep: &str) -> (text: String)
    ensures
        text@ == joined(texts(parts@), sep@),
{
    let mut text = String::new();
    let mut i: usize = 0;
    while i < parts.len()
        invariant
            i <= parts@.len(),
            text@ == joined(texts(parts@).take(i as int), sep@),
        decreases parts@.len() - i,
    {
        proof {
            let next = texts(parts@).take(i + 1);
            assert(next.drop_last() =~= texts(parts@).take(i as int));
            assert(next.last() == parts@[i as int]@);
            if i == 0 {
                assert(Seq::<char>::empty() + parts@[0]@ =~= parts@[0]@);
            }
        }
        if i > 0 {
            text.push_str(sep);
        }
        text.push_str(&parts[i]);
        i += 1;
    }
    proof {
        assert(texts(parts@).take(parts@.len() as int) =~= texts(parts@));
    }
    text
}

/// `s[i..]` with every occurrence of a non-empty `pat` replaced, from left to
/// right.
pub open spec fn replaced_from(s: Seq<char>, pat: Seq<char>, with: Seq<char>, i: int) -> Seq<char>
    decreases s.len() - i,
{
    if i < 0 || i >= s.len() {
        Seq::empty()
    } else if pat.len() > 0 && matches_at(s, pat, i) {
        with + replaced_from(s, pat, with, i + pat.len())
    } else {
        seq![s[i]] + replaced_from(s, pat, with, i + 1)
    }
}

/// Computes [`replaced_from`] from the start of a text.
pub fn replace(text: &str, pat: &str, with: &str) -> (out: String)
    requires
        pat@.len() > 0,
    ensures
        out@ == replaced_from(text@, pat@, with@, 0),
{
    let s = chars_of(text);
    let p = chars_of(pat);
    let n = s.len();
    let ghost stated = replaced_from(s@, p@, with@, 0);
    let mut out = String::new();
    let mut i: usize = 0;
    proof {
        assert(out@ + stated =~= stated);
    }
    while i < n
        invariant
            n == s@.len(),
            i <= n,
            p@.len() > 0,
            out@ + replaced_from(s@, p@, with@, i as int) == stated,
        decreases n - i,
    {
        let ghost had = out@;
        let ghost rest = replaced_from(s@, p@, with@, i as int);
        if is_at(&s, &p, i) {
            out.push_str(with);
            i += p.len();
            proof {
                assert(out@ + replaced_from(s@, p@, with@, i as int) =~= had + rest);
            }
        } else {
            out.push(s[i]);
            i += 1;
            proof {
                assert(out@ + replaced_from(s@, p@, with@, i as int) =~= had + rest);
            }
        }
    }
    proof {
        assert(out@ + replaced_from(s@, p@, with@, i as int) =~= out@);
    }
    out
}

/// The two texts one after the other.
pub fn concat(first: &str, second: &str) -> (text: String)
    ensures
        text@ == first@ + second@,
{
    let mut text = first.to_owned();
    text.push_str(second);
    text
}

/// Copies a list of strings.
pub fn copy_texts(list: &[String]) -> (out: Vec<String>)
    ensures
        texts(out@) == texts(list@),
        out@ == list@,
{
    let mut out: Vec<String> = Vec::new();
    let mut i: usize = 0;
    while i < list.len()
        invariant
            i <= list@.len(),
            out@ == list@.take(i as int),
        decreases list@.len() - i,
    {
        out.push(list[i].clone());
        i += 1;
    }
    proof {
        assert(list@.take(list@.len() as int) =~= list@);
    }
    out
}

// ---------------------------------------------------------------------------
// Order
// ---------------------------------------------------------------------------
/// Whether `a[i..]` comes strictly before `b[i..]` in dictionary order.
pub open spec fn before_from(a: Seq<char>, b: Seq<char>, i: int) -> bool
    decreases b.len() - i,
{
    if i >= b.len() {
        false
    } else if i >= a.len() {
        true
    } else if a[i] == b[i] {
        before_from(a, b, i + 1)
    } else {
        a[i] < b[i]
    }
}

/// Dictionary order by character value.
pub open spec fn before(a: Seq<char>, b: Seq<char>) -> bool {
    before_from(a, b, 0)
}

/// Dictionary order on the ASCII lowercase forms.
pub open spec fn before_ignoring_case(a: Seq<char>, b: Seq<char>) -> bool {
    before(lowered(a), lowered(b))
}

proof fn lemma_before_asymmetric(a: Seq<char>, b: Seq<char>, i: int)
    requires
        0 <= i,
    ensures
        !(before_from(a, b, i) && before_from(b, a, i)),
    decreases b.len() - i,
{
    if i < b.len() && i < a.len() && a[i] == b[i] {
        lemma_before_asymmetric(a, b, i + 1);
    }
}

proof fn lemma_before_total(a: Seq<char>, b: Seq<char>, i: int)
    requires
        0 <= i <= a.len(),
        i <= b.len(),
        a.take(i) == b.take(i),
    ensures
        a == b || before_from(a, b, i) || before_from(b, a, i),
    decreases b.len() - i,
{
    if i < b.len() && i < a.len() && a[i] == b[i] {
        assert(a.take(i + 1) =~= a.take(i).push(a[i]));
        assert(b.take(i + 1) =~= b.take(i).push(b[i]));
        lemma_before_total(a, b, i + 1);
    } else if i == b.len() && i == a.len() {
        assert(a =~= a.take(i));
        assert(b =~= b.take(i));
    }
}

proof fn lemma_before_transitive(a: Seq<char>, b: Seq<char>, c: Seq<char>, i: int)
    requires
        0 <= i,
        before_from(a, b, i),
        before_from(b, c, i),
    ensures
        before_from(a, c, i),
    decreases c.len() - i,
{
    if i < a.len() && i < b.len() && i < c.len() && a[i] == b[i] && b[i] == c[i] {
        lemma_before_transitive(a, b, c, i + 1);
    }
}

/// Dictionary order is strict and total: of two texts exactly one holds of
/// equal, before and after, and the order carries over chains.
pub proof fn law_dictionary_order(a: Seq<char>, b: Seq<char>, c: Seq<char>)
    ensures
        !before(a, a),
        !(before(a, b) && before(b, a)),
        a == b || before(a, b) || before(b, a),
        before(a, b) && before(b, c) ==> before(a, c),
{
    lemma_before_asymmetric(a, a, 0);
    lemma_before_asymmetric(a, b, 0);
    assert(a.take(0) =~= b.take(0));
    lemma_before_total(a, b, 0);
    if before(a, b) && before(b, c) {
        lemma_before_transitive(a, b, c, 0);
    }
}

/// Computes [`before`].
pub fn comes_before(left: &str, right: &str) -> (yes: bool)
    ensures
        yes == before(left@, right@),
{
    let a = chars_of(left);
    let b = chars_of(right);
    let mut i: usize = 0;
    while i < b.len()
        invariant
            i <= a@.len(),
            i <= b@.len(),
            a@ == left@,
            b@ == right@,
            before(a@, b@) == before_from(a@, b@, i as int),
        decreases b@.len() - i,
    {
        if i >= a.len() {
            return true;
        }
        if a[i] != b[i] {
            return a[i] < b[i];
        }
        i += 1;
    }
    false
}

} // verus!
