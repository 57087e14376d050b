//! Shell text: words, quoting, command separators and leading assignments.
use vstd::prelude::*;
use vstd::string::StrSliceExecFns;

use crate::text::{chars_of, is_space, text_range};

verus! {

// ---------------------------------------------------------------------------
// Quoting
// ---------------------------------------------------------------------------
/// Where a scan over shell text stands: inside which quotes, and whether the
/// character before was an escaping backslash.
pub struct Scan {
    pub quote: Option<char>,
    pub escaped: bool,
}

/// The state outside quotes and escapes.
pub open spec fn plain() -> Scan {
    Scan { quote: None, escaped: false }
}

/// Whether the character opens quotes.
pub open spec fn is_quote(c: char) -> bool {
    c == '\'' || c == '"'
}

/// Whether the character starts an escape here.
pub open spec fn escapes(scan: Scan, c: char) -> bool {
    !scan.escaped && c == '\\' && scan.quote != Some('\'')
}

/// The state behind a character.
pub open spec fn advance(scan: Scan, c: char) -> Scan {
    if scan.escaped {
        Scan { quote: scan.quote, escaped: false }
    } else if escapes(scan, c) {
        Scan { quote: scan.quote, escaped: true }
    } else if scan.quote is Some {
        if scan.quote == Some(c) {
            plain()
        } else {
            scan
        }
    } else if is_quote(c) {
        Scan { quote: Some(c), escaped: false }
    } else {
        scan
    }
}

/// The state before position `i`, scanning from the start.
pub open spec fn scan_at(s: Seq<char>, i: int) -> Scan
    decreases i,
{
    if i <= 0 {
        plain()
    } else {
        advance(scan_at(s, i - 1), s[i - 1])
    }
}

/// Whether a character stands for itself: outside quotes and escapes, and
/// neither a quote nor an escape.
pub open spec fn is_bare(scan: Scan, c: char) -> bool {
    scan == plain() && c != '\\' && !is_quote(c)
}

/// Whether position `i` holds white space that separates words.
pub open spec fn is_gap(s: Seq<char>, i: int) -> bool {
    is_bare(scan_at(s, i), s[i]) && is_space(s[i])
}

impl Scan {
    /// The state at the start of a text.
    pub fn start() -> (scan: Scan)
        ensures
            scan == plain(),
    {
        Scan { quote: None, escaped: false }
    }

    /// Whether the character stands for itself here.
    pub fn bare(&self, c: char) -> (yes: bool)
        ensures
            yes == is_bare(*self, c),
    {
        self.quote.is_none() && !self.escaped && c != '\\' && c != '\'' && c != '"'
    }

    /// Moves behind a character.
    pub fn step(&mut self, c: char)
        ensures
            *final(self) == advance(*old(self), c),
    {
        if self.escaped {
            self.escaped = false;
            return;
        }
        match self.quote {
            Some(active) => {
                if c == '\\' && active != '\'' {
                    self.escaped = true;
                } else if c == active {
                    self.quote = None;
                }
            },
            None => {
                if c == '\\' {
                    self.escaped = true;
                } else if c == '\'' || c == '"' {
                    self.quote = Some(c);
                }
            },
        }
    }
}

// ---------------------------------------------------------------------------
// Words
// ---------------------------------------------------------------------------
/// Where the word that reaches up to `i` begins; `i` itself behind a gap.
pub open spec fn word_start(s: Seq<char>, i: int) -> int
    decreases i,
{
    if i <= 0 {
        0
    } else if is_gap(s, i - 1) {
        i
    } else {
        word_start(s, i - 1)
    }
}

/// The raw words of `s[..i]` that a gap has closed.
pub open spec fn closed_words(s: Seq<char>, i: int) -> Seq<Seq<char>>
    decreases i,
{
    if i <= 0 {
        Seq::empty()
    } else {
        let start = word_start(s, i - 1);
        if is_gap(s, i - 1) && start < i - 1 {
            closed_words(s, i - 1).push(s.subrange(start, i - 1))
        } else {
            closed_words(s, i - 1)
        }
    }
}

/// The raw words of a text, quotes and escapes included.
pub open spec fn raw_words(s: Seq<char>) -> Seq<Seq<char>> {
    let n = s.len() as int;
    let start = word_start(s, n);
    if start < n {
        closed_words(s, n).push(s.subrange(start, n))
    } else {
        closed_words(s, n)
    }
}

/// What a character adds to the value of its word.
pub open spec fn piece(scan: Scan, c: char) -> Seq<char> {
    if escapes(scan, c) || (!scan.escaped && (scan.quote == Some(c) || (scan.quote is None
        && is_quote(c)))) {
        Seq::empty()
    } else {
        seq![c]
    }
}

/// The value of the first `i` characters of a word.
pub open spec fn value_upto(w: Seq<char>, i: int) -> Seq<char>
    decreases i,
{
    if i <= 0 {
        Seq::empty()
    } else {
        value_upto(w, i - 1) + piece(scan_at(w, i - 1), w[i - 1])
    }
}

/// The value of a raw word: quotes and escapes removed. A backslash with
/// nothing behind it is kept.
pub open spec fn unquoted(w: Seq<char>) -> Seq<char> {
    let n = w.len() as int;
    if scan_at(w, n).escaped {
        value_upto(w, n).push('\\')
    } else {
        value_upto(w, n)
    }
}

/// The words of a text.
pub open spec fn words(s: Seq<char>) -> Seq<Seq<char>> {
    Seq::new(raw_words(s).len(), |i: int| unquoted(raw_words(s)[i]))
}

/// Whether the text ends in white space that separates words.
pub open spec fn ends_in_gap(s: Seq<char>) -> bool {
    s.len() > 0 && is_gap(s, s.len() - 1)
}

/// The raw word under the caret at the end of a text, empty behind a gap.
pub open spec fn last_raw_word(s: Seq<char>) -> Seq<char> {
    s.subrange(word_start(s, s.len() as int), s.len() as int)
}

pub proof fn lemma_word_start(s: Seq<char>, i: int)
    requires
        0 <= i,
    ensures
        0 <= word_start(s, i) <= i,
        scan_at(s, word_start(s, i)) == plain(),
        forall|j: int| word_start(s, i) <= j < i ==> !is_gap(s, j),
    decreases i,
{
    if i > 0 && !is_gap(s, i - 1) {
        lemma_word_start(s, i - 1);
    }
}

/// Scanning a word by itself agrees with scanning it in place.
proof fn lemma_scan_shift(s: Seq<char>, a: int, b: int, k: int)
    requires
        0 <= a <= b <= s.len(),
        0 <= k <= b - a,
        scan_at(s, a) == plain(),
    ensures
        scan_at(s, a + k) == scan_at(s.subrange(a, b), k),
    decreases k,
{
    if k > 0 {
        lemma_scan_shift(s, a, b, k - 1);
        assert(s.subrange(a, b)[k - 1] == s[a + k - 1]);
    }
}

/// Scanning depends only on the characters before the position.
proof fn lemma_scan_prefix(s: Seq<char>, t: Seq<char>, i: int)
    requires
        0 <= i <= s.len(),
        i <= t.len(),
        s.take(i) == t.take(i),
    ensures
        scan_at(s, i) == scan_at(t, i),
    decreases i,
{
    if i > 0 {
        assert(s.take(i - 1) =~= s.take(i).take(i - 1));
        assert(t.take(i - 1) =~= t.take(i).take(i - 1));
        assert(s[i - 1] == s.take(i)[i - 1]);
        assert(t[i - 1] == t.take(i)[i - 1]);
        lemma_scan_prefix(s, t, i - 1);
    }
}

proof fn lemma_value_prefix(w: Seq<char>, v: Seq<char>, i: int)
    requires
        0 <= i <= w.len(),
        i <= v.len(),
        w.take(i) == v.take(i),
    ensures
        value_upto(w, i) == value_upto(v, i),
    decreases i,
{
    if i > 0 {
        assert(w.take(i - 1) =~= w.take(i).take(i - 1));
        assert(v.take(i - 1) =~= v.take(i).take(i - 1));
        assert(w[i - 1] == w.take(i)[i - 1]);
        assert(v[i - 1] == v.take(i)[i - 1]);
        lemma_value_prefix(w, v, i - 1);
        lemma_scan_prefix(w, v, i - 1);
    }
}

/// Extends the value of the word `s[a..i]` by the character at `i`.
proof fn lemma_value_step(s: Seq<char>, a: int, i: int)
    requires
        0 <= a <= i < s.len(),
        scan_at(s, a) == plain(),
    ensures
        value_upto(s.subrange(a, i + 1), i + 1 - a) == value_upto(s.subrange(a, i), i - a) + piece(
            scan_at(s, i),
            s[i],
        ),
{
    let longer = s.subrange(a, i + 1);
    let shorter = s.subrange(a, i);
    assert(longer.take(i - a) =~= shorter.take(i - a));
    lemma_value_prefix(longer, shorter, i - a);
    lemma_scan_shift(s, a, i + 1, i - a);
    assert(longer[i - a] == s[i]);
}

/// Splits shell text into words. The flag says whether the text ends in white
/// space that separates words.
pub fn tokenize(buffer: &str) -> (result: (Vec<String>, bool))
    ensures
        crate::text::texts(result.0@) == words(buffer@),
        result.1 == ends_in_gap(buffer@),
{
    let s = chars_of(buffer);
    let mut tokens: Vec<String> = Vec::new();
    let mut token = String::new();
    let mut started = false;
    let mut trailing_space = false;
    let mut scan = Scan::start();
    let mut i: usize = 0;
    let ghost n = s@.len() as int;
    proof {
        assert(s@.subrange(0, 0) =~= Seq::<char>::empty());
    }
    while i < s.len()
        invariant
            n == s@.len(),
            i <= n,
            scan == scan_at(s@, i as int),
            started == (word_start(s@, i as int) < i),
            trailing_space == (i > 0 && is_gap(s@, i - 1)),
            token@ == value_upto(
                s@.subrange(word_start(s@, i as int), i as int),
                i - word_start(s@, i as int),
            ),
            tokens@.len() == closed_words(s@, i as int).len(),
            forall|j: int|
                0 <= j < tokens@.len() ==> (#[trigger] tokens@[j])@ == unquoted(
                    closed_words(s@, i as int)[j],
                ),
        decreases n - i,
    {
        let c = s[i];
        let ghost start = word_start(s@, i as int);
        let ghost done = closed_words(s@, i as int);
        proof {
            lemma_word_start(s@, i as int);
            lemma_value_step(s@, start, i as int);
            lemma_scan_shift(s@, start, i as int, i - start);
        }
        if scan.bare(c) && c.is_whitespace() {
            if started {
                tokens.push(token);
                started = false;
            }
            token = String::new();
            trailing_space = true;
            proof {
                assert(s@.subrange(i + 1, i + 1) =~= Seq::<char>::empty());
            }
        } else {
            let silent = !scan.escaped && match scan.quote {
                Some(active) => c == active || (c == '\\' && active != '\''),
                None => c == '\\' || c == '\'' || c == '"',
            };
            if !silent {
                token.push(c);
            }
            proof {
                let before = value_upto(s@.subrange(start, i as int), i - start);
                assert(before + Seq::<char>::empty() =~= before);
                assert(before + seq![c] =~= before.push(c));
            }
            started = true;
            trailing_space = false;
        }
        scan.step(c);
        i += 1;
    }
    proof {
        let start = word_start(s@, n);
        lemma_word_start(s@, n);
        lemma_scan_shift(s@, start, n, n - start);
    }
    if scan.escaped {
        token.push('\\');
        proof {
            assert(word_start(s@, n) < n);
            assert(!ends_in_gap(s@));
        }
    }
    if started {
        tokens.push(token);
    }
    proof {
        assert(crate::text::texts(tokens@) =~= words(s@));
    }
    (tokens, trailing_space)
}

/// The raw shell word under the caret at the end of the buffer. Matching uses
/// the value that [`tokenize`] returns, while insertion needs the exact text
/// to delete, quotes and escapes included.
pub fn current_token_raw(buffer: &str) -> (raw: String)
    ensures
        raw@ == last_raw_word(buffer@),
{
    let s = chars_of(buffer);
    let mut scan = Scan::start();
    let mut start: usize = 0;
    let mut i: usize = 0;
    while i < s.len()
        invariant
            i <= s@.len(),
            start <= i,
            scan == scan_at(s@, i as int),
            start == word_start(s@, i as int),
        decreases s@.len() - i,
    {
        let c = s[i];
        if scan.bare(c) && c.is_whitespace() {
            start = i + 1;
        }
        scan.step(c);
        i += 1;
    }
    text_range(&s, start, s.len())
}

/// The word under the caret is the last word: the raw text to delete and the
/// value to match denote the same word.
pub proof fn law_raw_word_denotes_last_word(s: Seq<char>)
    requires
        !ends_in_gap(s),
        s.len() > 0,
    ensures
        words(s).len() > 0,
        words(s).last() == unquoted(last_raw_word(s)),
        last_raw_word(s) == s.skip(s.len() - last_raw_word(s).len()),
{
    let n = s.len() as int;
    lemma_word_start(s, n);
    lemma_word_start(s, n - 1);
    assert(raw_words(s).last() == last_raw_word(s));
    assert(last_raw_word(s) =~= s.skip(s.len() - last_raw_word(s).len()));
}

// ---------------------------------------------------------------------------
// Leading assignments and redirections
// ---------------------------------------------------------------------------
/// Where white space from `i` on ends.
pub open spec fn skip_space(s: Seq<char>, i: int) -> int
    decreases s.len() - i,
{
    if 0 <= i < s.len() && is_space(s[i]) {
        skip_space(s, i + 1)
    } else {
        i
    }
}

/// Computes [`skip_space`].
pub fn skip_ws(s: &[char], from: usize) -> (i: usize)
    requires
        from <= s@.len(),
    ensures
        i == skip_space(s@, from as int),
        from <= i <= s@.len(),
{
    let mut i: usize = from;
    while i < s.len() && s[i].is_whitespace()
        invariant
            from <= i <= s@.len(),
            skip_space(s@, from as int) == skip_space(s@, i as int),
        decreases s@.len() - i,
    {
        i += 1;
    }
    i
}

/// Whether the character is an ASCII digit.
pub open spec fn is_digit(c: char) -> bool {
    '0' <= c && c <= '9'
}

/// Whether the character is an ASCII letter or digit.
pub open spec fn is_alnum(c: char) -> bool {
    is_digit(c) || ('a' <= c && c <= 'z') || ('A' <= c && c <= 'Z')
}

/// Whether the character may stand in the name of an assignment.
pub open spec fn is_name_char(c: char) -> bool {
    is_alnum(c) || c == '_' || c == '[' || c == ']'
}

/// Where the digits from `i` on end.
pub open spec fn digits_end(s: Seq<char>, i: int) -> int
    decreases s.len() - i,
{
    if 0 <= i < s.len() && is_digit(s[i]) {
        digits_end(s, i + 1)
    } else {
        i
    }
}

/// Where the name from `i` on ends.
pub open spec fn name_end(s: Seq<char>, i: int) -> int
    decreases s.len() - i,
{
    if 0 <= i < s.len() && is_name_char(s[i]) {
        name_end(s, i + 1)
    } else {
        i
    }
}

/// Whether a word assigns: a name, then `=` or `+=`.
pub open spec fn assigns(w: Seq<char>) -> bool {
    let e = name_end(w, 0);
    0 < e < w.len() && (w[e] == '=' || (w[e] == '+' && e + 1 < w.len() && w[e + 1] == '='))
}

/// Whether a word redirects a file descriptor: digits, `>` or `<`, an optional
/// `&`, digits; with the first digits or the `&`.
pub open spec fn redirects_fd(w: Seq<char>) -> bool {
    let fd = digits_end(w, 0);
    let amp = fd + 1 < w.len() && w[fd + 1] == '&';
    let rest = if amp {
        fd + 2
    } else {
        fd + 1
    };
    &&& fd < w.len() && (w[fd] == '>' || w[fd] == '<')
    &&& digits_end(w, rest) == w.len()
    &&& fd > 0 || amp
}

fn digits_stop(w: &[char], from: usize) -> (i: usize)
    requires
        from <= w@.len(),
    ensures
        i == digits_end(w@, from as int),
        from <= i <= w@.len(),
{
    let mut i: usize = from;
    while i < w.len() && '0' <= w[i] && w[i] <= '9'
        invariant
            from <= i <= w@.len(),
            digits_end(w@, from as int) == digits_end(w@, i as int),
        decreases w@.len() - i,
    {
        i += 1;
    }
    i
}

/// Whether a word is a file-descriptor redirection such as `2>&1`.
pub fn is_fd_redirection_token(token: &str) -> (yes: bool)
    ensures
        yes == redirects_fd(token@),
{
    let w = chars_of(token);
    let fd = digits_stop(&w, 0);
    if fd >= w.len() || (w[fd] != '>' && w[fd] != '<') {
        return false;
    }
    let amp = fd + 1 < w.len() && w[fd + 1] == '&';
    let rest: usize = if amp {
        fd + 2
    } else {
        fd + 1
    };
    let end = digits_stop(&w, rest);
    end == w.len() && (fd > 0 || amp)
}

/// Whether a word is an assignment such as `FOO=1`.
pub fn is_assignment_token(token: &str) -> (yes: bool)
    ensures
        yes == assigns(token@),
{
    let w = chars_of(token);
    let mut e: usize = 0;
    while e < w.len() && (('0' <= w[e] && w[e] <= '9') || ('a' <= w[e] && w[e] <= 'z') || ('A'
        <= w[e] && w[e] <= 'Z') || w[e] == '_' || w[e] == '[' || w[e] == ']')
        invariant
            e <= w@.len(),
            name_end(w@, 0) == name_end(w@, e as int),
        decreases w@.len() - e,
    {
        e += 1;
    }
    e > 0 && e < w.len() && (w[e] == '=' || (w[e] == '+' && e + 1 < w.len() && w[e + 1] == '='))
}

/// Where the word that covers `i` ends: at the next gap or the end.
pub open spec fn word_stop(s: Seq<char>, i: int) -> int
    decreases s.len() - i,
{
    if 0 <= i < s.len() && !is_gap(s, i) {
        word_stop(s, i + 1)
    } else {
        i
    }
}

/// Where the first raw word of a text ends, 0 if it has none.
pub open spec fn first_word_end(s: Seq<char>) -> int {
    let start = skip_space(s, 0);
    if start >= s.len() {
        0
    } else {
        word_stop(s, start)
    }
}

/// Computes [`first_word_end`] for the text from `from` on, as a position in
/// the whole text.
pub fn raw_first_token_end(s: &[char], from: usize) -> (end: usize)
    requires
        from <= s@.len(),
    ensures
        end - from == first_word_end(s@.skip(from as int)),
        from <= end <= s@.len(),
        from < s@.len() && !is_space(s@[from as int]) ==> end > from,
{
    let ghost t = s@.skip(from as int);
    let mut i: usize = from;
    while i < s.len() && s[i].is_whitespace()
        invariant
            from <= i <= s@.len(),
            t == s@.skip(from as int),
            skip_space(t, 0) == skip_space(t, i - from),
            scan_at(t, i - from) == plain(),
            forall|j: int| from <= j < i ==> is_space(s@[j]),
        decreases s@.len() - i,
    {
        proof {
            assert(t[i - from] == s@[i as int]);
            assert(scan_at(t, i + 1 - from) == advance(scan_at(t, i - from), t[i - from]));
        }
        i += 1;
    }
    if i >= s.len() {
        return from;
    }
    let ghost first = i - from;
    let mut scan = Scan::start();
    proof {
        assert(t[i - from] == s@[i as int]);
    }
    while i < s.len() && !(scan.bare(s[i]) && s[i].is_whitespace())
        invariant
            from + first <= i <= s@.len(),
            t == s@.skip(from as int),
            scan == scan_at(t, i - from),
            0 <= first < t.len(),
            !is_space(t[first]),
            word_stop(t, first) == word_stop(t, i - from),
        decreases s@.len() - i,
    {
        proof {
            assert(t[i - from] == s@[i as int]);
        }
        scan.step(s[i]);
        i += 1;
    }
    proof {
        if i < s@.len() {
            assert(t[i - from] == s@[i as int]);
        }
    }
    i
}

/// Whether the first word of a text that starts with a word is an assignment
/// or a redirection. A quoted word never is.
pub open spec fn leads(t: Seq<char>) -> bool {
    let w = unquoted(t.take(first_word_end(t)));
    t.len() > 0 && !is_quote(t[0]) && (assigns(w) || redirects_fd(w))
}

/// How many characters of leading assignments and redirections, with the
/// white space round them, stand before the command.
pub open spec fn command_offset(s: Seq<char>) -> int
    decreases s.len(),
    via command_offset_decreases
{
    let start = skip_space(s, 0);
    if start >= s.len() {
        s.len() as int
    } else {
        let t = s.skip(start);
        if leads(t) {
            start + first_word_end(t) + command_offset(t.skip(first_word_end(t)))
        } else {
            start
        }
    }
}

pub proof fn lemma_skip_space(s: Seq<char>, i: int)
    requires
        0 <= i <= s.len(),
    ensures
        i <= skip_space(s, i) <= s.len(),
        skip_space(s, i) < s.len() ==> !is_space(s[skip_space(s, i)]),
        forall|j: int| i <= j < skip_space(s, i) ==> is_space(s[j]),
    decreases s.len() - i,
{
    if i < s.len() && is_space(s[i]) {
        lemma_skip_space(s, i + 1);
    }
}

proof fn lemma_word_stop(s: Seq<char>, i: int)
    requires
        0 <= i <= s.len(),
    ensures
        i <= word_stop(s, i) <= s.len(),
        i < s.len() && !is_gap(s, i) ==> word_stop(s, i) > i,
    decreases s.len() - i,
{
    if i < s.len() && !is_gap(s, i) {
        lemma_word_stop(s, i + 1);
    }
}

proof fn lemma_first_word_end(t: Seq<char>)
    requires
        t.len() > 0,
        !is_space(t[0]),
    ensures
        0 < first_word_end(t) <= t.len(),
{
    assert(skip_space(t, 0) == 0);
    lemma_word_stop(t, 0);
}

#[via_fn]
proof fn command_offset_decreases(s: Seq<char>) {
    lemma_skip_space(s, 0);
    let start = skip_space(s, 0);
    if start < s.len() {
        lemma_first_word_end(s.skip(start));
    }
}

pub proof fn lemma_command_offset(s: Seq<char>)
    ensures
        0 <= command_offset(s) <= s.len(),
    decreases s.len(),
{
    let start = skip_space(s, 0);
    lemma_skip_space(s, 0);
    if start < s.len() {
        let t = s.skip(start);
        lemma_first_word_end(t);
        if leads(t) {
            lemma_command_offset(t.skip(first_word_end(t)));
        }
    }
}

/// The text of the first word of `s[from..end]`.
fn first_word_text(s: &[char], from: usize, end: usize) -> (word: String)
    requires
        from <= end <= s@.len(),
        end - from == first_word_end(s@.skip(from as int)),
    ensures
        word@ == unquoted(s@.skip(from as int).take(first_word_end(s@.skip(from as int)))),
{
    let ghost w = s@.subrange(from as int, end as int);
    proof {
        assert(s@.skip(from as int).take(end - from) =~= w);
    }
    let mut word = String::new();
    let mut scan = Scan::start();
    let mut i: usize = from;
    while i < end
        invariant
            from <= i <= end <= s@.len(),
            w == s@.subrange(from as int, end as int),
            scan == scan_at(w, i - from),
            word@ == value_upto(w, i - from),
        decreases end - i,
    {
        let c = s[i];
        let silent = !scan.escaped && match scan.quote {
            Some(active) => c == active || (c == '\\' && active != '\''),
            None => c == '\\' || c == '\'' || c == '"',
        };
        proof {
            assert(w[i - from] == c);
            assert(value_upto(w, i - from) + Seq::<char>::empty() =~= value_upto(w, i - from));
            assert(value_upto(w, i - from) + seq![c] =~= value_upto(w, i - from).push(c));
        }
        if !silent {
            word.push(c);
        }
        scan.step(c);
        i += 1;
    }
    if scan.escaped {
        word.push('\\');
    }
    word
}

/// Computes [`command_offset`] for `s[from..to]`, as a position in the whole
/// text.
fn skip_leading_assignments_in(s: &[char], from: usize, to: usize) -> (at: usize)
    requires
        from <= to <= s@.len(),
    ensures
        at - from == command_offset(s@.subrange(from as int, to as int)),
        from <= at <= to,
{
    let rest_text = text_range(s, from, to);
    let rest = chars_of(&rest_text);
    let mut at: usize = 0;
    proof {
        assert(rest@.skip(0) =~= rest@);
        lemma_command_offset(rest@);
    }
    loop
        invariant
            at <= rest@.len(),
            rest@ == s@.subrange(from as int, to as int),
            from <= to <= s@.len(),
            command_offset(rest@) == at + command_offset(rest@.skip(at as int)),
        decreases rest@.len() - at,
    {
        let ghost r = rest@.skip(at as int);
        let start = skip_ws(&rest, at);
        proof {
            lemma_skip_shift(rest@, at as int, at as int);
            lemma_skip_space(r, 0);
        }
        if start >= rest.len() {
            return to;
        }
        let end = raw_first_token_end(&rest, start);
        let ghost t = rest@.skip(start as int);
        proof {
            assert(r.skip(start - at) =~= t);
            lemma_skip_space(rest@, at as int);
            assert(t[0] == rest@[start as int]);
        }
        let word = first_word_text(&rest, start, end);
        let quoted = rest[start] == '\'' || rest[start] == '"';
        if quoted || !(is_assignment_token(&word) || is_fd_redirection_token(&word)) {
            return from + start;
        }
        proof {
            assert(t.skip(first_word_end(t)) =~= rest@.skip(end as int));
        }
        at = end;
    }
}

/// Skipping white space in a tail agrees with skipping it in place.
proof fn lemma_skip_shift(s: Seq<char>, a: int, i: int)
    requires
        0 <= a <= i <= s.len(),
    ensures
        skip_space(s, i) == a + skip_space(s.skip(a), i - a),
    decreases s.len() - i,
{
    if i < s.len() {
        assert(s.skip(a)[i - a] == s[i]);
        if is_space(s[i]) {
            lemma_skip_shift(s, a, i + 1);
        }
    }
}

/// The text behind leading assignments and redirections.
pub fn skip_leading_assignments(slice: &str) -> (rest: &str)
    ensures
        rest@ == slice@.skip(command_offset(slice@)),
{
    let s = chars_of(slice);
    let n = s.len();
    let at = skip_leading_assignments_in(&s, 0, n);
    proof {
        assert(s@.subrange(0, n as int) =~= s@);
        assert(slice@.skip(at as int) =~= slice@.subrange(at as int, n as int));
    }
    slice.substring_char(at, n)
}

// ---------------------------------------------------------------------------
// The innermost command
// ---------------------------------------------------------------------------
/// What opened a command.
#[derive(Clone, Copy, PartialEq, Eq, Structural, Debug)]
pub enum FrameKind {
    Root,
    Subshell,
    Compound,
    Backtick,
}

/// A command that is open at the caret, and where its text begins.
#[derive(Clone, Copy, Debug)]
pub struct CommandFrame {
    pub start: usize,
    pub kind: FrameKind,
}

/// The length of the list or pipeline operator at `i`, 0 where there is none.
/// Redirections such as `2>&1` and `&>` separate no commands.
pub open spec fn operator_at(s: Seq<char>, i: int) -> int {
    let c = s[i];
    let next = if i + 1 < s.len() {
        Some(s[i + 1])
    } else {
        None
    };
    if (c == '&' || c == '|') && next == Some('&') || c == '&' && next == Some(';') || c == '|'
        && next == Some('|') {
        2
    } else if c == ';' || c == '|' {
        1
    } else if c == '&' {
        if i > 0 && (s[i - 1] == '>' || s[i - 1] == '<') || next == Some('>') {
            0
        } else {
            1
        }
    } else {
        0
    }
}

/// Computes [`operator_at`].
pub fn operator_len(s: &[char], i: usize) -> (len: usize)
    requires
        i < s@.len(),
    ensures
        len == operator_at(s@, i as int),
        i + len <= s@.len(),
{
    let c = s[i];
    let next: Option<char> = if i + 1 < s.len() {
        Some(s[i + 1])
    } else {
        None
    };
    match next {
        Some(d) => {
            if ((c == '&' || c == '|') && d == '&') || (c == '&' && d == ';') || (c == '|' && d
                == '|') {
                return 2;
            }
        },
        None => {},
    }
    if c == ';' || c == '|' {
        return 1;
    }
    if c == '&' {
        if i > 0 && (s[i - 1] == '>' || s[i - 1] == '<') {
            return 0;
        }
        if let Some(d) = next {
            if d == '>' {
                return 0;
            }
        }
        return 1;
    }
    0
}

/// Whether a command that began at `start` has no word of its own before `i`.
pub open spec fn at_boundary(s: Seq<char>, start: int, i: int) -> bool {
    start <= i && command_offset(s.subrange(start, i)) == i - start
}

/// Computes [`at_boundary`].
pub fn at_statement_boundary(s: &[char], start: usize, i: usize) -> (yes: bool)
    requires
        i <= s@.len(),
    ensures
        yes == at_boundary(s@, start as int, i as int),
{
    if start > i {
        return false;
    }
    skip_leading_assignments_in(s, start, i) == i
}

/// Whether the innermost command is of the given kind.
pub open spec fn top_is(frames: Seq<CommandFrame>, kind: FrameKind) -> bool {
    frames.len() > 0 && frames.last().kind == kind
}

/// Closes the innermost command where it is of the given kind.
pub fn pop_frame(frames: &mut Vec<CommandFrame>, kind: FrameKind) -> (popped: bool)
    ensures
        popped == top_is(old(frames)@, kind),
        final(frames)@ == if popped {
            old(frames)@.drop_last()
        } else {
            old(frames)@
        },
{
    let n = frames.len();
    if n == 0 || frames[n - 1].kind != kind {
        return false;
    }
    let _ = frames.pop();
    true
}

/// The open commands behind the bare character at `i`, and the next position.
pub open spec fn frame_step(s: Seq<char>, i: int, frames: Seq<CommandFrame>) -> (
    Seq<CommandFrame>,
    int,
) {
    let c = s[i];
    let start = frames.last().start as int;
    let opens_paren = i + 1 < s.len() && s[i + 1] == '(';
    let op = operator_at(s, i);
    if c == '$' {
        if opens_paren {
            (
                frames.push(
                    CommandFrame { start: (i + 2) as usize, kind: FrameKind::Subshell },
                ),
                i + 2,
            )
        } else {
            (frames, i + 1)
        }
    } else if (c == '<' || c == '>') && opens_paren {
        (
            frames.push(CommandFrame { start: (i + 2) as usize, kind: FrameKind::Subshell }),
            i + 2,
        )
    } else if c == '`' {
        if top_is(frames, FrameKind::Backtick) {
            (frames.drop_last(), i + 1)
        } else {
            (
                frames.push(
                    CommandFrame { start: (i + 1) as usize, kind: FrameKind::Backtick },
                ),
                i + 1,
            )
        }
    } else if c == '(' && at_boundary(s, start, i) {
        (
            frames.push(CommandFrame { start: (i + 1) as usize, kind: FrameKind::Subshell }),
            i + 1,
        )
    } else if c == '{' && at_boundary(s, start, i) {
        (
            frames.push(CommandFrame { start: (i + 1) as usize, kind: FrameKind::Compound }),
            i + 1,
        )
    } else if c == ')' && top_is(frames, FrameKind::Subshell) {
        (frames.drop_last(), i + 1)
    } else if c == '}' && top_is(frames, FrameKind::Compound) {
        (frames.drop_last(), i + 1)
    } else if op > 0 {
        (
            frames.update(
                frames.len() - 1,
                CommandFrame {
                    start: skip_space(s, i + op) as usize,
                    kind: frames.last().kind,
                },
            ),
            i + op,
        )
    } else {
        (frames, i + 1)
    }
}

/// The commands open at the end of the text, scanning from `i`.
pub open spec fn open_frames(
    s: Seq<char>,
    i: int,
    scan: Scan,
    frames: Seq<CommandFrame>,
) -> Seq<CommandFrame>
    decreases s.len() - i,
{
    if i < 0 || i >= s.len() {
        frames
    } else if !is_bare(scan, s[i]) {
        open_frames(s, i + 1, advance(scan, s[i]), frames)
    } else {
        let (next, j) = frame_step(s, i, frames);
        if j > i {
            open_frames(s, j, scan, next)
        } else {
            next
        }
    }
}

/// Where the command under the caret at the end of the text begins.
pub open spec fn command_start(s: Seq<char>) -> int {
    open_frames(
        s,
        0,
        plain(),
        seq![CommandFrame { start: 0, kind: FrameKind::Root }],
    ).last().start as int
}

/// The frames of a scan over `s`: the outermost is the root, and every command
/// begins inside the text.
spec fn frames_ok(s: Seq<char>, frames: Seq<CommandFrame>) -> bool {
    &&& frames.len() > 0
    &&& frames[0].kind == FrameKind::Root
    &&& forall|k: int| 0 <= k < frames.len() ==> (#[trigger] frames[k]).start <= s.len()
    &&& forall|k: int| 0 < k < frames.len() ==> (#[trigger] frames[k]).kind != FrameKind::Root
}

/// Moves the start of the innermost command.
fn restart_frame(frames: &mut Vec<CommandFrame>, start: usize)
    requires
        old(frames)@.len() > 0,
    ensures
        final(frames)@ == old(frames)@.update(
            old(frames)@.len() - 1,
            CommandFrame { start, kind: old(frames)@.last().kind },
        ),
{
    let last = frames.len() - 1;
    let kind = frames[last].kind;
    frames.set(last, CommandFrame { start, kind });
}

/// Computes [`frame_step`].
fn step_frames(s: &[char], i: usize, frames: &mut Vec<CommandFrame>) -> (next: usize)
    requires
        i < s@.len(),
        frames_ok(s@, old(frames)@),
    ensures
        (final(frames)@, next as int) == frame_step(s@, i as int, old(frames)@),
        frames_ok(s@, final(frames)@),
        i < next <= s@.len(),
{
    let c = s[i];
    let opens_paren = i + 1 < s.len() && s[i + 1] == '(';
    if c == '$' {
        if opens_paren {
            frames.push(CommandFrame { start: i + 2, kind: FrameKind::Subshell });
            return i + 2;
        }
        return i + 1;
    }
    if (c == '<' || c == '>') && opens_paren {
        frames.push(CommandFrame { start: i + 2, kind: FrameKind::Subshell });
        return i + 2;
    }
    if c == '`' {
        if !pop_frame(frames, FrameKind::Backtick) {
            frames.push(CommandFrame { start: i + 1, kind: FrameKind::Backtick });
        }
        return i + 1;
    }
    let start = frames[frames.len() - 1].start;
    if c == '(' && at_statement_boundary(s, start, i) {
        frames.push(CommandFrame { start: i + 1, kind: FrameKind::Subshell });
        return i + 1;
    }
    if c == '{' && at_statement_boundary(s, start, i) {
        frames.push(CommandFrame { start: i + 1, kind: FrameKind::Compound });
        return i + 1;
    }
    if c == ')' && pop_frame(frames, FrameKind::Subshell) {
        return i + 1;
    }
    if c == '}' && pop_frame(frames, FrameKind::Compound) {
        return i + 1;
    }
    let op = operator_len(s, i);
    if op > 0 {
        restart_frame(frames, skip_ws(s, i + op));
        return i + op;
    }
    i + 1
}

/// Where the innermost command at the end of the text begins: behind the last
/// separator, or inside the last substitution, subshell or group left open.
pub fn innermost_command_start(s: &[char]) -> (start: usize)
    ensures
        start == command_start(s@),
        start <= s@.len(),
{
    let mut frames: Vec<CommandFrame> = Vec::new();
    frames.push(CommandFrame { start: 0, kind: FrameKind::Root });
    let mut scan = Scan::start();
    let mut i: usize = 0;
    proof {
        assert(frames@ =~= seq![CommandFrame { start: 0, kind: FrameKind::Root }]);
    }
    while i < s.len()
        invariant
            i <= s@.len(),
            frames_ok(s@, frames@),
            command_start(s@) == open_frames(s@, i as int, scan, frames@).last().start,
        decreases s@.len() - i,
    {
        let c = s[i];
        if !scan.bare(c) {
            scan.step(c);
            i += 1;
        } else {
            i = step_frames(s, i, &mut frames);
        }
    }
    frames[frames.len() - 1].start
}

/// The text of the innermost command: behind separators, substitutions left
/// open and leading assignments.
pub open spec fn command_text(s: Seq<char>) -> Seq<char> {
    let t = s.skip(command_start(s));
    t.skip(command_offset(t))
}

/// The innermost command text at the end of the buffer. Completion and ranking
/// share it, so `echo x && git ch` is completed and ranked as `git`.
pub fn current_command_slice(buffer: &str) -> (command: &str)
    ensures
        command@ == command_text(buffer@),
{
    let s = chars_of(buffer);
    let n = s.len();
    let start = innermost_command_start(&s);
    let at = skip_leading_assignments_in(&s, start, n);
    proof {
        let t = s@.skip(start as int);
        assert(t =~= s@.subrange(start as int, n as int));
        assert(t.skip(at - start) =~= s@.subrange(at as int, n as int));
    }
    buffer.substring_char(at, n)
}

/// Whether the caret stands in a new command without words (`echo x && `), as
/// opposed to an empty prompt or a line of assignments.
pub open spec fn is_fresh(s: Seq<char>) -> bool {
    let start = command_start(s);
    start > 0 && s.len() > 0 && is_space(s.last()) && skip_space(s, start) == s.len()
}

/// Computes [`is_fresh`].
pub fn is_fresh_command_position(buffer: &str) -> (fresh: bool)
    ensures
        fresh == is_fresh(buffer@),
{
    let s = chars_of(buffer);
    let start = innermost_command_start(&s);
    start > 0 && s.len() > 0 && s[s.len() - 1].is_whitespace() && skip_ws(&s, start) == s.len()
}

// ---------------------------------------------------------------------------
// The caret
// ---------------------------------------------------------------------------
/// The bytes that a character takes in UTF-8.
pub open spec fn utf8_width(c: char) -> int {
    let n = c as u32;
    if n < 0x80 {
        1
    } else if n < 0x800 {
        2
    } else if n < 0x10000 {
        3
    } else {
        4
    }
}

/// Where the characters from `i` on that fit in `left` bytes end.
pub open spec fn fitting_end(s: Seq<char>, i: int, left: int) -> int
    decreases s.len() - i,
{
    if 0 <= i < s.len() && utf8_width(s[i]) <= left {
        fitting_end(s, i + 1, left - utf8_width(s[i]))
    } else {
        i
    }
}

/// The text before a caret given in bytes; a caret inside a character counts
/// as before it.
pub open spec fn before_caret(s: Seq<char>, cursor: Option<u32>) -> Seq<char> {
    match cursor {
        None => s,
        Some(bytes) => s.take(fitting_end(s, 0, bytes as int)),
    }
}

/// Computes [`before_caret`].
pub fn buffer_before_cursor(buffer: &str, cursor: Option<u32>) -> (text: &str)
    ensures
        text@ == before_caret(buffer@, cursor),
{
    let bytes = match cursor {
        None => {
            return buffer;
        },
        Some(bytes) => bytes,
    };
    let s = chars_of(buffer);
    let mut left: u32 = bytes;
    let mut i: usize = 0;
    while i < s.len()
        invariant
            i <= s@.len(),
            s@ == buffer@,
            fitting_end(s@, 0, bytes as int) == fitting_end(s@, i as int, left as int),
        ensures
            i <= s@.len(),
            i == fitting_end(s@, 0, bytes as int),
        decreases s@.len() - i,
    {
        let n: u32 = s[i] as u32;
        let width: u32 = if n < 0x80 {
            1
        } else if n < 0x800 {
            2
        } else if n < 0x10000 {
            3
        } else {
            4
        };
        if width > left {
            break;
        }
        left -= width;
        i += 1;
    }
    proof {
        assert(s@.take(i as int) =~= s@.subrange(0, i as int));
    }
    buffer.substring_char(0, i)
}

/// The text that lookup, ranking and history work on: the innermost command
/// before the caret.
pub open spec fn completion_text(s: Seq<char>, cursor: Option<u32>) -> Seq<char> {
    command_text(before_caret(s, cursor))
}

/// Computes [`completion_text`].
pub fn completion_buffer(buffer: &str, cursor: Option<u32>) -> (text: &str)
    ensures
        text@ == completion_text(buffer@, cursor),
{
    current_command_slice(buffer_before_cursor(buffer, cursor))
}

proof fn lemma_frames_inside(s: Seq<char>, i: int, scan: Scan, frames: Seq<CommandFrame>)
    requires
        s.len() <= usize::MAX,
        0 <= i <= s.len(),
        frames_ok(s, frames),
    ensures
        frames_ok(s, open_frames(s, i, scan, frames)),
    decreases s.len() - i,
{
    if i < s.len() {
        if !is_bare(scan, s[i]) {
            lemma_frames_inside(s, i + 1, advance(scan, s[i]), frames);
        } else {
            let (next, j) = frame_step(s, i, frames);
            lemma_skip_space(s, i + 1);
            if i + 2 <= s.len() {
                lemma_skip_space(s, i + 2);
            }
            lemma_frames_inside(s, j, scan, next);
        }
    }
}

proof fn lemma_fitting_end(s: Seq<char>, i: int, left: int)
    requires
        0 <= i <= s.len(),
    ensures
        i <= fitting_end(s, i, left) <= s.len(),
    decreases s.len() - i,
{
    if i < s.len() && utf8_width(s[i]) <= left {
        lemma_fitting_end(s, i + 1, left - utf8_width(s[i]));
    }
}

/// The command under the caret starts inside the line.
pub proof fn lemma_command_start(s: Seq<char>)
    requires
        s.len() <= usize::MAX,
    ensures
        0 <= command_start(s) <= s.len(),
{
    let frames = seq![CommandFrame { start: 0, kind: FrameKind::Root }];
    lemma_frames_inside(s, 0, plain(), frames);
    let out = open_frames(s, 0, plain(), frames);
    assert(out[out.len() - 1] == out.last());
}

/// What is completed stands directly before the caret: the command text is a
/// tail of the text before the caret, which is the beginning of the buffer.
pub proof fn law_completion_text_ends_at_the_caret(s: Seq<char>, cursor: Option<u32>)
    requires
        s.len() <= usize::MAX,
    ensures
        ({
            let typed = before_caret(s, cursor);
            let text = completion_text(s, cursor);
            &&& typed == s.take(typed.len() as int)
            &&& text.len() <= typed.len()
            &&& text == typed.skip(typed.len() - text.len())
        }),
{
    if let Some(bytes) = cursor {
        lemma_fitting_end(s, 0, bytes as int);
    }
    let typed = before_caret(s, cursor);
    assert(typed =~= s.take(typed.len() as int));
    let root = seq![CommandFrame { start: 0, kind: FrameKind::Root }];
    lemma_frames_inside(typed, 0, plain(), root);
    let t = typed.skip(command_start(typed));
    lemma_command_offset(t);
    assert(completion_text(s, cursor) =~= typed.skip(
        typed.len() - completion_text(s, cursor).len(),
    ));
}

// ---------------------------------------------------------------------------
// Plain words
// ---------------------------------------------------------------------------
/// Whether a word needs no quoting.
pub open spec fn is_plain_word(w: Seq<char>) -> bool {
    &&& w.len() > 0
    &&& forall|i: int|
        0 <= i < w.len() ==> !is_space(#[trigger] w[i]) && !is_quote(w[i]) && w[i] != '\\'
}

/// The words, each with one space behind it but the last.
pub open spec fn spaced(list: Seq<Seq<char>>) -> Seq<char> {
    crate::text::joined(list, seq![' '])
}

proof fn lemma_spaced_scan(list: Seq<Seq<char>>)
    requires
        list.len() > 0,
        forall|i: int| 0 <= i < list.len() ==> is_plain_word(#[trigger] list[i]),
    ensures
        ({
            let s = spaced(list);
            let n = s.len() as int;
            &&& scan_at(s, n) == plain()
            &&& word_start(s, n) == n - list.last().len()
            &&& s.subrange(n - list.last().len(), n) == list.last()
            &&& n >= list.last().len()
            &&& closed_words(s, n) == list.drop_last()
        }),
    decreases list.len(),
{
    let s = spaced(list);
    let w = list.last();
    let n = s.len() as int;
    let a = n - w.len();
    if list.len() == 1 {
        assert(s =~= w);
        assert(list.drop_last() =~= Seq::empty());
        assert(s.subrange(0, n) =~= w);
        lemma_plain_tail(s, 0, w, n);
    } else {
        let head = list.drop_last();
        lemma_spaced_scan(head);
        let h = spaced(head);
        let m = h.len() as int;
        assert(s =~= h + seq![' '] + w);
        assert(s.take(m) =~= h.take(m));
        lemma_scan_prefix(s, h, m);
        lemma_words_prefix(s, h, m);
        assert(s[m] == ' ');
        assert(scan_at(s, m + 1) == plain());
        assert(is_gap(s, m));
        assert(word_start(s, m + 1) == m + 1);
        assert(s.subrange(m - head.last().len(), m) =~= h.subrange(m - head.last().len(), m));
        assert(closed_words(s, m + 1) == head.drop_last().push(head.last()));
        assert(head.drop_last().push(head.last()) =~= head);
        assert(s.subrange(a, n) =~= w);
        lemma_plain_tail(s, m + 1, w, n);
    }
}

/// Word boundaries depend only on the characters before the position.
proof fn lemma_words_prefix(s: Seq<char>, t: Seq<char>, i: int)
    requires
        0 <= i <= s.len(),
        i <= t.len(),
        s.take(i) == t.take(i),
    ensures
        word_start(s, i) == word_start(t, i),
        closed_words(s, i) == closed_words(t, i),
    decreases i,
{
    if i > 0 {
        assert(s.take(i - 1) =~= s.take(i).take(i - 1));
        assert(t.take(i - 1) =~= t.take(i).take(i - 1));
        assert(s[i - 1] == s.take(i)[i - 1]);
        assert(t[i - 1] == t.take(i)[i - 1]);
        lemma_words_prefix(s, t, i - 1);
        lemma_scan_prefix(s, t, i - 1);
        let a = word_start(s, i - 1);
        lemma_word_start(s, i - 1);
        assert(s.subrange(a, i - 1) =~= s.take(i).subrange(a, i - 1));
        assert(t.subrange(a, i - 1) =~= t.take(i).subrange(a, i - 1));
    }
}

/// A plain word at the end of a text changes neither the scan nor the words
/// closed before it.
proof fn lemma_plain_tail(s: Seq<char>, a: int, w: Seq<char>, i: int)
    requires
        0 <= a <= i <= s.len(),
        i <= a + w.len(),
        is_plain_word(w),
        forall|k: int| a <= k < i ==> s[k] == w[k - a],
        scan_at(s, a) == plain(),
        word_start(s, a) == a,
    ensures
        scan_at(s, i) == plain(),
        word_start(s, i) == a,
        closed_words(s, i) == closed_words(s, a),
    decreases i,
{
    if i > a {
        lemma_plain_tail(s, a, w, i - 1);
        assert(s[i - 1] == w[i - 1 - a]);
    }
}

proof fn lemma_plain_value(w: Seq<char>, i: int)
    requires
        is_plain_word(w),
        0 <= i <= w.len(),
    ensures
        scan_at(w, i) == plain(),
        value_upto(w, i) == w.take(i),
    decreases i,
{
    if i > 0 {
        lemma_plain_value(w, i - 1);
        assert(w.take(i - 1) + seq![w[i - 1]] =~= w.take(i));
    } else {
        assert(w.take(0) =~= Seq::<char>::empty());
    }
}

/// Words that need no quoting, separated by single spaces, are read back as
/// they were written.
pub proof fn law_plain_words_read_back(list: Seq<Seq<char>>)
    requires
        list.len() > 0,
        forall|i: int| 0 <= i < list.len() ==> is_plain_word(#[trigger] list[i]),
    ensures
        words(spaced(list)) == list,
        !ends_in_gap(spaced(list)),
        last_raw_word(spaced(list)) == list.last(),
{
    let s = spaced(list);
    let n = s.len() as int;
    lemma_spaced_scan(list);
    assert(raw_words(s) =~= list.drop_last().push(list.last()));
    assert(list.drop_last().push(list.last()) =~= list);
    assert forall|i: int| 0 <= i < list.len() implies unquoted(#[trigger] list[i]) == list[i] by {
        lemma_plain_value(list[i], list[i].len() as int);
        assert(list[i].take(list[i].len() as int) =~= list[i]);
    }
    assert(words(s) =~= list);
    lemma_word_start(s, n);
}

} // verus!
