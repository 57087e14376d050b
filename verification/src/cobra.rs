//! The completion that commands of the Cobra family offer themselves: what they
//! are called with, how their output is read, and what is kept of it.
use vstd::prelude::*;

use crate::filegen::expand::{join_base, path_joined};
use crate::generate::cache::{is_cache, key_place, used, with_entry, MtimeLru, StampedView};
use crate::generate::shape::{at_most, tab_parts};
use crate::query::{is_match, matches_query};
use crate::runtime::{copy_rows, new_row, rows, Suggestion, SuggestionView};
use crate::text::{
    chars_of, concat, index_of, join, joined, lines, lines_of, text_range, texts, trim, trimmed,
};

verus! {

/// The time that a command has to answer, in milliseconds.
pub const TIMEOUT_MS: u64 = 300;

/// The number of rows of a command at most.
pub const MAX_RESULTS: usize = 50;

/// The number of answers kept at most.
pub const MAX_CACHED: usize = 48;

// ---------------------------------------------------------------------------
// Reading answers
// ---------------------------------------------------------------------------
/// Whether a line is a directive to the shell: a colon and digits.
pub open spec fn is_directive(line: Seq<char>) -> bool {
    line.len() > 0 && line[0] == ':' && forall|i: int|
        1 <= i < line.len() ==> '0' <= (#[trigger] line[i]) && line[i] <= '9'
}

/// The row of a line: a name, and a description behind a tab. Blank lines,
/// lines that begin with an underscore and directives give none.
pub open spec fn answer_row(line: Seq<char>) -> Option<SuggestionView> {
    let l = trimmed(line);
    if l.len() == 0 || l[0] == '_' || is_directive(l) {
        None
    } else {
        let (name, description) = tab_parts(l);
        if trimmed(name).len() == 0 {
            None
        } else {
            Some(
                SuggestionView {
                    insert_value: Some(trimmed(name)),
                    ..new_row(trimmed(name), trimmed(description), "arg"@)
                },
            )
        }
    }
}

/// The rows of lines.
pub open spec fn answer_rows(list: Seq<Seq<char>>) -> Seq<SuggestionView>
    decreases list.len(),
{
    if list.len() == 0 {
        Seq::empty()
    } else {
        match answer_row(list.last()) {
            Some(row) => answer_rows(list.drop_last()).push(row),
            None => answer_rows(list.drop_last()),
        }
    }
}

fn directive(s: &[char]) -> (yes: bool)
    ensures
        yes == is_directive(s@),
{
    if s.len() == 0 || s[0] != ':' {
        return false;
    }
    let mut i: usize = 1;
    while i < s.len()
        invariant
            1 <= i <= s@.len(),
            s@[0] == ':',
            forall|k: int| 1 <= k < i ==> '0' <= (#[trigger] s@[k]) && s@[k] <= '9',
        decreases s@.len() - i,
    {
        if !('0' <= s[i] && s[i] <= '9') {
            return false;
        }
        i += 1;
    }
    true
}

/// Computes [`answer_row`].
fn parse_answer(line: &str) -> (row: Option<Suggestion>)
    ensures
        match row {
            Some(row) => answer_row(line@) == Some(row@),
            None => answer_row(line@) is None,
        },
{
    let l = trim(line);
    let s = chars_of(&l);
    let n = s.len();
    if n == 0 || s[0] == '_' || directive(&s) {
        return None;
    }
    let tab = index_of(&s, '\t', 0);
    let head = text_range(&s, 0, tab);
    let tail = if tab < n {
        text_range(&s, tab + 1, n)
    } else {
        String::new()
    };
    proof {
        assert(head@ =~= tab_parts(l@).0);
        assert(tail@ =~= tab_parts(l@).1);
    }
    let name = trim(&head);
    if name.as_str().is_empty() {
        return None;
    }
    Some(Suggestion::new(&name, &trim(&tail), "arg").with_insert_value(&name))
}

/// The rows in a command's answer.
pub fn parse_complete_output(stdout: &str) -> (out: Vec<Suggestion>)
    ensures
        rows(out@) == at_most(answer_rows(lines_of(stdout@)), MAX_RESULTS as nat),
{
    let list = lines(stdout);
    let ghost all = texts(list@);
    let mut out: Vec<Suggestion> = Vec::new();
    let mut i: usize = 0;
    proof {
        assert(rows(out@) =~= Seq::<SuggestionView>::empty());
    }
    while i < list.len()
        invariant
            i <= list@.len(),
            all == texts(list@),
            rows(out@) == answer_rows(all.take(i as int)),
        decreases list@.len() - i,
    {
        proof {
            assert(all.take(i + 1).drop_last() =~= all.take(i as int));
        }
        if let Some(row) = parse_answer(&list[i]) {
            let ghost had = out@;
            let ghost view = row@;
            out.push(row);
            proof {
                assert(rows(out@) =~= rows(had).push(view));
            }
        }
        i += 1;
    }
    proof {
        assert(all.take(all.len() as int) =~= all);
    }
    let ghost whole = out@;
    if out.len() > MAX_RESULTS {
        out.truncate(MAX_RESULTS);
    }
    proof {
        assert(rows(out@) =~= at_most(rows(whole), MAX_RESULTS as nat));
    }
    out
}

// ---------------------------------------------------------------------------
// Asking
// ---------------------------------------------------------------------------
/// The words behind the command.
pub open spec fn rest_of(tokens: Seq<Seq<char>>) -> Seq<Seq<char>> {
    if tokens.len() > 1 {
        tokens.skip(1)
    } else {
        Seq::empty()
    }
}

fn copy_rest(tokens: &[String]) -> (rest: Vec<String>)
    ensures
        texts(rest@) == rest_of(texts(tokens@)),
{
    let ghost all = texts(tokens@);
    let mut rest: Vec<String> = Vec::new();
    let mut i: usize = 1;
    proof {
        assert(texts(rest@) =~= Seq::<Seq<char>>::empty());
    }
    while i < tokens.len()
        invariant
            1 <= i,
            i <= tokens@.len() || tokens@.len() == 0,
            all == texts(tokens@),
            all.len() > 0 ==> texts(rest@) == all.subrange(1, i as int),
            all.len() == 0 ==> texts(rest@) == Seq::<Seq<char>>::empty(),
        decreases tokens@.len() - i,
    {
        let ghost had = rest@;
        rest.push(tokens[i].clone());
        i += 1;
        proof {
            assert(texts(rest@) =~= texts(had).push(all[i - 1]));
            assert(all.subrange(1, i as int) =~= all.subrange(1, i - 1).push(all[i - 1]));
        }
    }
    proof {
        assert(texts(rest@) =~= rest_of(all));
    }
    rest
}

/// The arguments with which a command is asked.
pub fn complete_args(tokens: &[String]) -> (args: Vec<String>)
    ensures
        texts(args@) == seq!["__complete"@] + rest_of(texts(tokens@)),
{
    let rest = copy_rest(tokens);
    let ghost stated = rest_of(texts(tokens@));
    let mut args: Vec<String> = Vec::new();
    args.push("__complete".to_owned());
    let mut i: usize = 0;
    proof {
        assert(texts(args@) =~= seq!["__complete"@] + stated.take(0));
    }
    while i < rest.len()
        invariant
            i <= rest@.len(),
            stated == texts(rest@),
            texts(args@) == seq!["__complete"@] + stated.take(i as int),
        decreases rest@.len() - i,
    {
        let ghost had = args@;
        args.push(rest[i].clone());
        i += 1;
        proof {
            assert(texts(args@) =~= texts(had).push(stated[i - 1]));
            assert(stated.take(i as int) =~= stated.take(i - 1).push(stated[i - 1]));
            assert(texts(args@) =~= seq!["__complete"@] + stated.take(i as int));
        }
    }
    proof {
        assert(stated.take(stated.len() as int) =~= stated);
    }
    args
}

/// The files that a command's name can stand for, in order: a path is one file,
/// a bare name is looked for in directories.
pub open spec fn candidates(name: Seq<char>, cwd: Seq<char>, dirs: Seq<Seq<char>>) -> Seq<Seq<char>> {
    if name.contains('/') {
        seq![path_joined(cwd, name)]
    } else {
        Seq::new(dirs.len(), |i: int| path_joined(dirs[i], name))
    }
}

/// Computes [`candidates`].
pub fn binary_candidates(name: &str, cwd: &str, dirs: &[String]) -> (out: Vec<String>)
    ensures
        texts(out@) == candidates(name@, cwd@, texts(dirs@)),
{
    let s = chars_of(name);
    let mut out: Vec<String> = Vec::new();
    let slash = index_of(&s, '/', 0);
    if slash < s.len() {
        out.push(join_base(cwd, name));
        proof {
            assert(name@.contains('/'));
            assert(texts(out@) =~= candidates(name@, cwd@, texts(dirs@)));
        }
        return out;
    }
    let ghost stated = candidates(name@, cwd@, texts(dirs@));
    proof {
        if name@.contains('/') {
            let k = name@.index_of('/');
            assert(s@[k] == '/');
        }
        assert(texts(out@) =~= stated.take(0));
    }
    let mut i: usize = 0;
    while i < dirs.len()
        invariant
            i <= dirs@.len(),
            stated == candidates(name@, cwd@, texts(dirs@)),
            stated.len() == dirs@.len(),
            forall|k: int|
                0 <= k < dirs@.len() ==> stated[k] == path_joined((#[trigger] dirs@[k])@, name@),
            texts(out@) == stated.take(i as int),
        decreases dirs@.len() - i,
    {
        let ghost had = out@;
        out.push(join_base(&dirs[i], name));
        i += 1;
        proof {
            assert(texts(out@) =~= texts(had).push(stated[i - 1]));
            assert(stated.take(i as int) =~= stated.take(i - 1).push(stated[i - 1]));
        }
    }
    proof {
        assert(stated.take(stated.len() as int) =~= stated);
    }
    out
}

/// The name under which a command's answer is kept: its file and the words
/// behind it.
pub open spec fn answer_key(binary: Seq<char>, tokens: Seq<Seq<char>>) -> Seq<char> {
    binary + "|"@ + joined(rest_of(tokens), "\u{1f}"@)
}

/// Computes [`answer_key`].
pub fn cache_key(binary: &str, tokens: &[String]) -> (key: String)
    ensures
        key@ == answer_key(binary@, texts(tokens@)),
{
    let rest = copy_rest(tokens);
    concat(&concat(binary, "|"), &join(&rest, "\u{1f}"))
}

/// The rows of an answer that match the last word; all of them for a bare
/// command or behind a space.
pub open spec fn rows_for_word(
    list: Seq<SuggestionView>,
    tokens: Seq<Seq<char>>,
    fuzzy: bool,
) -> Seq<SuggestionView>
    decreases list.len(),
{
    if tokens.len() <= 1 || tokens.last().len() == 0 {
        list
    } else if list.len() == 0 {
        Seq::empty()
    } else if is_match(list.last().name, tokens.last(), fuzzy) {
        rows_for_word(list.drop_last(), tokens, fuzzy).push(list.last())
    } else {
        rows_for_word(list.drop_last(), tokens, fuzzy)
    }
}

/// Computes [`rows_for_word`].
pub fn filter_cached(list: &[Suggestion], tokens: &[String], fuzzy: bool) -> (out: Vec<Suggestion>)
    ensures
        rows(out@) == rows_for_word(rows(list@), texts(tokens@), fuzzy),
{
    if tokens.len() <= 1 || tokens[tokens.len() - 1].as_str().is_empty() {
        return copy_rows(list);
    }
    let query = &tokens[tokens.len() - 1];
    let ghost all = rows(list@);
    let ghost words = texts(tokens@);
    let mut out: Vec<Suggestion> = Vec::new();
    let mut i: usize = 0;
    proof {
        assert(rows(out@) =~= Seq::<SuggestionView>::empty());
    }
    while i < list.len()
        invariant
            i <= list@.len(),
            all == rows(list@),
            words == texts(tokens@),
            words.len() > 1,
            words.last() == query@,
            query@.len() > 0,
            rows(out@) == rows_for_word(all.take(i as int), words, fuzzy),
        decreases list@.len() - i,
    {
        proof {
            assert(all.take(i + 1).drop_last() =~= all.take(i as int));
            assert(all.take(i + 1).last() == list@[i as int]@);
        }
        if matches_query(&list[i].name, query, fuzzy) {
            let ghost had = out@;
            out.push(list[i].clone());
            proof {
                assert(rows(out@) =~= rows(had).push(list@[i as int]@));
            }
        }
        i += 1;
    }
    proof {
        assert(all.take(all.len() as int) =~= all);
    }
    out
}

/// The answers of commands, kept while their files have not changed.
pub type Cache = MtimeLru<Vec<Suggestion>>;

/// Whether an answer is kept under a name for a file that has not changed.
pub open spec fn is_fresh(
    entries: Seq<StampedView<Vec<Suggestion>>>,
    key: Seq<char>,
    mtime: Option<u64>,
) -> bool {
    match key_place(entries, key, 0) {
        Some(i) => entries[i].mtime == mtime,
        None => false,
    }
}

/// The answers without the one under a name.
pub open spec fn without_key(
    entries: Seq<StampedView<Vec<Suggestion>>>,
    key: Seq<char>,
) -> Seq<StampedView<Vec<Suggestion>>> {
    match key_place(entries, key, 0) {
        Some(i) => entries.remove(i),
        None => entries,
    }
}

/// The rows of a command from its kept answer, where it is fresh.
fn complete_from_cache(
    cache: &mut Cache,
    key: &str,
    mtime: Option<u64>,
    tokens: &[String],
    fuzzy: bool,
) -> (out: Option<Vec<Suggestion>>)
    requires
        is_cache(old(cache)@, old(cache).limit_spec()),
    ensures
        is_cache(final(cache)@, final(cache).limit_spec()),
        final(cache).limit_spec() == old(cache).limit_spec(),
        is_fresh(old(cache)@, key@, mtime) ==> match key_place(old(cache)@, key@, 0) {
            Some(i) => final(cache)@ == used(old(cache)@, i) && (out matches Some(list) && rows(
                list@,
            ) == rows_for_word(rows(old(cache)@[i].value@), texts(tokens@), fuzzy)),
            None => false,
        },
        !is_fresh(old(cache)@, key@, mtime) ==> out is None && final(cache)@ == without_key(
            old(cache)@,
            key@,
        ),
{
    match cache.get(key, mtime) {
        Some(hit) => Some(filter_cached(hit, tokens, fuzzy)),
        None => None,
    }
}

/// The rows of a command: from its kept answer, or from the output that it
/// gave, whose rows are then kept. `stdout` is absent where the command was not
/// asked yet, and holds nothing where it gave no answer. Nothing comes back
/// where the command has to be asked.
pub fn complete(
    cache: &mut Cache,
    binary: &str,
    mtime: Option<u64>,
    tokens: &[String],
    fuzzy: bool,
    stdout: Option<Option<&str>>,
) -> (out: Option<Vec<Suggestion>>)
    requires
        is_cache(old(cache)@, old(cache).limit_spec()),
    ensures
        is_cache(final(cache)@, final(cache).limit_spec()),
        final(cache).limit_spec() == old(cache).limit_spec(),
        is_fresh(old(cache)@, answer_key(binary@, texts(tokens@)), mtime) ==> match key_place(
            old(cache)@,
            answer_key(binary@, texts(tokens@)),
            0,
        ) {
            Some(i) => final(cache)@ == used(old(cache)@, i) && (out matches Some(list) && rows(
                list@,
            ) == rows_for_word(rows(old(cache)@[i].value@), texts(tokens@), fuzzy)),
            None => false,
        },
        !is_fresh(old(cache)@, answer_key(binary@, texts(tokens@)), mtime) ==> match stdout {
            None => out is None && final(cache)@ == without_key(
                old(cache)@,
                answer_key(binary@, texts(tokens@)),
            ),
            Some(None) => out matches Some(list) && list@.len() == 0 && final(cache)@
                == without_key(old(cache)@, answer_key(binary@, texts(tokens@))),
            Some(Some(text)) => {
                &&& out matches Some(list) && rows(list@) == rows_for_word(
                    at_most(answer_rows(lines_of(text@)), MAX_RESULTS as nat),
                    texts(tokens@),
                    fuzzy,
                )
                &&& keeps_answer(
                    final(cache)@,
                    without_key(old(cache)@, answer_key(binary@, texts(tokens@))),
                    answer_key(binary@, texts(tokens@)),
                    mtime,
                    at_most(answer_rows(lines_of(text@)), MAX_RESULTS as nat),
                    old(cache).limit_spec(),
                )
            },
        },
{
    let key = cache_key(binary, tokens);
    if let Some(hit) = complete_from_cache(cache, &key, mtime, tokens, fuzzy) {
        return Some(hit);
    }
    match stdout {
        None => None,
        Some(None) => Some(Vec::new()),
        Some(Some(text)) => {
            let answer = parse_complete_output(text);
            let out = filter_cached(&answer, tokens, fuzzy);
            let ghost view = rows(answer@);
            let ghost left = cache@;
            let ghost limit = cache.limit_spec();
            let ghost added = StampedView { key: key@, mtime, value: answer };
            cache.insert(&key, mtime, answer);
            proof {
                assert(keeps_answer(cache@, left, key@, mtime, view, limit)) by {
                    assert(cache@ == with_entry(left, added, limit));
                }
            }
            Some(out)
        },
    }
}

/// Whether answers are others with one of given rows kept under a name.
pub open spec fn keeps_answer(
    entries: Seq<StampedView<Vec<Suggestion>>>,
    left: Seq<StampedView<Vec<Suggestion>>>,
    key: Seq<char>,
    mtime: Option<u64>,
    answer: Seq<SuggestionView>,
    limit: nat,
) -> bool {
    exists|entry: StampedView<Vec<Suggestion>>|
        entry.key == key && entry.mtime == mtime && rows(entry.value@) == answer && entries
            == #[trigger] with_entry(left, entry, limit)
}

// ---------------------------------------------------------------------------
// Laws
// ---------------------------------------------------------------------------
/// Every row of an answer has a name, which is what it inserts.
pub proof fn law_answers_have_names(list: Seq<Seq<char>>)
    ensures
        forall|i: int|
            0 <= i < answer_rows(list).len() ==> {
                let row = #[trigger] answer_rows(list)[i];
                row.name.len() > 0 && row.insert_value == Some(row.name)
            },
    decreases list.len(),
{
    if list.len() > 0 {
        law_answers_have_names(list.drop_last());
    }
}

} // verus!
