//! Rows from the output of commands and from package descriptions.
use vstd::prelude::*;

use crate::filegen::expand::{join_base, path_joined};
use crate::json::{
    document, lemma_object_view, member_views, parse, value_under, Json, JsonView,
};
use crate::paths::{parent_dir, parent_of};
use crate::query::{is_match, matches_query};
use crate::runtime::{new_row, rows, Suggestion, SuggestionView};
use crate::sorted::{pair_texts, sort_pairs, sort_texts, sorted_pairs, sorted_set};
use crate::text::{
    begins_with, chars_of, concat, index_from, index_of, lines, lines_of, opt_text, rfind,
    rfind_spec, same, space_from, split, split_from, starts_with, text_range, texts, trim, trimmed,
};

verus! {

/// The number of rows that one command gives at most.
pub const MAX_RESULTS: usize = 50;

// ---------------------------------------------------------------------------
// Lists of names
// ---------------------------------------------------------------------------
/// The first items of a list.
pub open spec fn at_most<T>(list: Seq<T>, n: nat) -> Seq<T> {
    if list.len() <= n {
        list
    } else {
        list.take(n as int)
    }
}

/// The row of a name, which may say that the name is what it inserts.
pub open spec fn named_row(
    name: Seq<char>,
    description: Seq<char>,
    kind: Seq<char>,
    inserts: bool,
) -> SuggestionView {
    SuggestionView {
        insert_value: if inserts {
            Some(name)
        } else {
            None
        },
        ..new_row(name, description, kind)
    }
}

/// The rows of names, all with the same description and kind.
pub open spec fn name_rows(
    names: Seq<Seq<char>>,
    description: Seq<char>,
    kind: Seq<char>,
    inserts: bool,
) -> Seq<SuggestionView> {
    Seq::new(names.len(), |i: int| named_row(names[i], description, kind, inserts))
}

/// The rows of the first names, all with the same description and kind.
pub fn rows_of_names(
    names: &[String],
    limit: usize,
    description: &str,
    kind: &str,
    inserts: bool,
) -> (out: Vec<Suggestion>)
    ensures
        rows(out@) == name_rows(
            at_most(texts(names@), limit as nat),
            description@,
            kind@,
            inserts,
        ),
{
    let count: usize = if names.len() <= limit {
        names.len()
    } else {
        limit
    };
    let ghost kept = at_most(texts(names@), limit as nat);
    let ghost stated = name_rows(kept, description@, kind@, inserts);
    let mut out: Vec<Suggestion> = Vec::new();
    let mut i: usize = 0;
    proof {
        assert(rows(out@) =~= stated.take(0));
    }
    while i < count
        invariant
            i <= count <= names@.len(),
            count == kept.len(),
            kept == at_most(texts(names@), limit as nat),
            stated == name_rows(kept, description@, kind@, inserts),
            rows(out@) == stated.take(i as int),
        decreases count - i,
    {
        let name = &names[i];
        let mut row = Suggestion::new(name, description, kind);
        if inserts {
            row = row.with_insert_value(name);
        }
        let ghost had = out@;
        let ghost view = row@;
        out.push(row);
        proof {
            assert(kept[i as int] == name@);
            assert(view =~= stated[i as int]);
            assert(rows(out@) =~= rows(had).push(view));
            assert(stated.take(i + 1) =~= stated.take(i as int).push(view));
        }
        i += 1;
    }
    proof {
        assert(stated.take(count as int) =~= stated);
    }
    out
}

/// The parts of a list without surrounding white space; empty ones are left
/// out.
pub open spec fn trimmed_parts(parts: Seq<Seq<char>>) -> Seq<Seq<char>>
    decreases parts.len(),
{
    if parts.len() == 0 {
        Seq::empty()
    } else if trimmed(parts.last()).len() == 0 {
        trimmed_parts(parts.drop_last())
    } else {
        trimmed_parts(parts.drop_last()).push(trimmed(parts.last()))
    }
}

/// Computes [`trimmed_parts`].
pub fn trim_parts(parts: &[String]) -> (out: Vec<String>)
    ensures
        texts(out@) == trimmed_parts(texts(parts@)),
{
    let ghost all = texts(parts@);
    let mut out: Vec<String> = Vec::new();
    let mut i: usize = 0;
    proof {
        assert(texts(out@) =~= Seq::<Seq<char>>::empty());
    }
    while i < parts.len()
        invariant
            i <= parts@.len(),
            all == texts(parts@),
            texts(out@) == trimmed_parts(all.take(i as int)),
        decreases parts@.len() - i,
    {
        proof {
            assert(all.take(i + 1).drop_last() =~= all.take(i as int));
        }
        let part = trim(&parts[i]);
        if !part.as_str().is_empty() {
            let ghost had = out@;
            let ghost view = part@;
            out.push(part);
            proof {
                assert(texts(out@) =~= texts(had).push(view));
            }
        }
        i += 1;
    }
    proof {
        assert(all.take(all.len() as int) =~= all);
    }
    out
}

/// The names of a list that match a query.
pub open spec fn matching(names: Seq<Seq<char>>, query: Seq<char>, fuzzy: bool) -> Seq<Seq<char>>
    decreases names.len(),
{
    if names.len() == 0 {
        Seq::empty()
    } else if is_match(names.last(), query, fuzzy) {
        matching(names.drop_last(), query, fuzzy).push(names.last())
    } else {
        matching(names.drop_last(), query, fuzzy)
    }
}

/// Computes [`matching`].
pub fn keep_matching(names: &[String], query: &str, fuzzy: bool) -> (out: Vec<String>)
    ensures
        texts(out@) == matching(texts(names@), query@, fuzzy),
{
    let ghost all = texts(names@);
    let mut out: Vec<String> = Vec::new();
    let mut i: usize = 0;
    proof {
        assert(texts(out@) =~= Seq::<Seq<char>>::empty());
    }
    while i < names.len()
        invariant
            i <= names@.len(),
            all == texts(names@),
            texts(out@) == matching(all.take(i as int), query@, fuzzy),
        decreases names@.len() - i,
    {
        proof {
            assert(all.take(i + 1).drop_last() =~= all.take(i as int));
            assert(all.take(i + 1).last() == names@[i as int]@);
        }
        if matches_query(&names[i], query, fuzzy) {
            let ghost had = out@;
            out.push(names[i].clone());
            proof {
                assert(texts(out@) =~= texts(had).push(names@[i as int]@));
            }
        }
        i += 1;
    }
    proof {
        assert(all.take(all.len() as int) =~= all);
    }
    out
}

// ---------------------------------------------------------------------------
// The output of scripts
// ---------------------------------------------------------------------------
/// The parts of an output: its lines, or what stands between separators.
pub open spec fn output_parts(stdout: Seq<char>, split_on: Seq<char>) -> Seq<Seq<char>> {
    if split_on.len() == 0 {
        trimmed_parts(lines_of(stdout))
    } else {
        trimmed_parts(split_from(trimmed(stdout), split_on, 0))
    }
}

/// Computes [`output_parts`].
pub fn split_output(stdout: &str, split_on: &str) -> (parts: Vec<String>)
    ensures
        texts(parts@) == output_parts(stdout@, split_on@),
{
    if split_on.is_empty() {
        trim_parts(&lines(stdout))
    } else {
        trim_parts(&split(&trim(stdout), split_on))
    }
}

/// The rows of the parts that match, from the lines of an output.
pub fn filter_lines(stdout: &str, query: &str, fuzzy: bool) -> (out: Vec<Suggestion>)
    ensures
        rows(out@) == name_rows(
            at_most(
                matching(trimmed_parts(lines_of(stdout@)), query@, fuzzy),
                MAX_RESULTS as nat,
            ),
            Seq::empty(),
            "arg"@,
            true,
        ),
{
    proof {
        reveal_strlit("");
        assert(""@ =~= Seq::<char>::empty());
    }
    let parts = trim_parts(&lines(stdout));
    rows_of_names(&keep_matching(&parts, query, fuzzy), MAX_RESULTS, "", "arg", true)
}

/// The rows of the parts that match, between separators.
pub fn filter_split(stdout: &str, query: &str, fuzzy: bool, split_on: &str) -> (out: Vec<Suggestion>)
    ensures
        rows(out@) == name_rows(
            at_most(
                matching(output_parts(stdout@, split_on@), query@, fuzzy),
                MAX_RESULTS as nat,
            ),
            Seq::empty(),
            "arg"@,
            true,
        ),
{
    proof {
        reveal_strlit("");
        assert(""@ =~= Seq::<char>::empty());
    }
    let parts = split_output(stdout, split_on);
    rows_of_names(&keep_matching(&parts, query, fuzzy), MAX_RESULTS, "", "arg", true)
}

/// The rows of all parts between separators.
pub fn all_split(stdout: &str, split_on: &str) -> (out: Vec<Suggestion>)
    ensures
        rows(out@) == name_rows(output_parts(stdout@, split_on@), Seq::empty(), "arg"@, true),
{
    proof {
        reveal_strlit("");
        assert(""@ =~= Seq::<char>::empty());
    }
    let parts = split_output(stdout, split_on);
    rows_of_names(&parts, parts.len(), "", "arg", true)
}

/// The rows of all lines.
pub fn all_lines(stdout: &str) -> (out: Vec<Suggestion>)
    ensures
        rows(out@) == name_rows(trimmed_parts(lines_of(stdout@)), Seq::empty(), "arg"@, true),
{
    proof {
        reveal_strlit("");
    }
    all_split(stdout, "")
}

/// The rows of lines that were kept, those that match.
pub fn filter_cached_lines(lines: &[String], query: &str, fuzzy: bool) -> (out: Vec<Suggestion>)
    ensures
        rows(out@) == name_rows(
            at_most(matching(texts(lines@), query@, fuzzy), MAX_RESULTS as nat),
            Seq::empty(),
            "arg"@,
            false,
        ),
{
    proof {
        reveal_strlit("");
        assert(""@ =~= Seq::<char>::empty());
    }
    rows_of_names(&keep_matching(lines, query, fuzzy), MAX_RESULTS, "", "arg", false)
}

/// The rows of the distinct lines that match, sorted.
pub open spec fn line_rows(stdout: Seq<char>, query: Seq<char>, fuzzy: bool, kind: Seq<char>) -> Seq<
    SuggestionView,
> {
    name_rows(
        at_most(
            sorted_set(matching(trimmed_parts(lines_of(stdout)), query, fuzzy)),
            MAX_RESULTS as nat,
        ),
        Seq::empty(),
        kind,
        false,
    )
}

/// Computes [`line_rows`].
pub fn lines_to_suggestions(stdout: &str, query: &str, fuzzy: bool, kind: &str) -> (out: Vec<
    Suggestion,
>)
    ensures
        rows(out@) == line_rows(stdout@, query@, fuzzy, kind@),
{
    proof {
        reveal_strlit("");
        assert(""@ =~= Seq::<char>::empty());
    }
    let parts = trim_parts(&lines(stdout));
    let names = sort_texts(&keep_matching(&parts, query, fuzzy));
    rows_of_names(&names, MAX_RESULTS, "", kind, false)
}

/// The values that match, or all of them without a query.
pub open spec fn matching_or_all(
    values: Seq<Seq<char>>,
    query: Seq<char>,
    fuzzy: bool,
) -> Seq<Seq<char>> {
    if query.len() == 0 {
        values
    } else {
        matching(values, query, fuzzy)
    }
}

/// The rows of values from history.
pub fn history_template_suggestions(values: &[String], query: &str, fuzzy: bool) -> (out: Vec<
    Suggestion,
>)
    ensures
        rows(out@) == name_rows(
            matching_or_all(texts(values@), query@, fuzzy),
            Seq::empty(),
            "arg"@,
            true,
        ),
{
    proof {
        reveal_strlit("");
        assert(""@ =~= Seq::<char>::empty());
    }
    if query.is_empty() {
        rows_of_names(values, values.len(), "", "arg", true)
    } else {
        let kept = keep_matching(values, query, fuzzy);
        rows_of_names(&kept, kept.len(), "", "arg", true)
    }
}

// ---------------------------------------------------------------------------
// The output of git
// ---------------------------------------------------------------------------
/// A line's part before its first tab and the part behind it.
pub open spec fn tab_parts(line: Seq<char>) -> (Seq<char>, Seq<char>) {
    let tab = index_from(line, '\t', 0);
    if tab < line.len() {
        (line.take(tab), line.skip(tab + 1))
    } else {
        (line, Seq::empty())
    }
}

/// Computes both parts of [`tab_parts`], without surrounding white space.
fn split_at_tab(line: &str) -> (parts: (String, String))
    ensures
        parts.0@ == trimmed(tab_parts(line@).0),
        parts.1@ == trimmed(tab_parts(line@).1),
{
    let s = chars_of(line);
    let n = s.len();
    let tab = index_of(&s, '\t', 0);
    let head = text_range(&s, 0, tab);
    let tail = if tab < n {
        text_range(&s, tab + 1, n)
    } else {
        String::new()
    };
    proof {
        assert(head@ =~= tab_parts(line@).0);
        assert(tail@ =~= tab_parts(line@).1);
    }
    (trim(&head), trim(&tail))
}

/// The branches among lines of a name and the target of a symbolic name.
/// Symbolic names are no branches.
pub open spec fn branch_names(list: Seq<Seq<char>>, query: Seq<char>, fuzzy: bool) -> Seq<Seq<char>>
    decreases list.len(),
{
    if list.len() == 0 {
        Seq::empty()
    } else {
        let earlier = branch_names(list.drop_last(), query, fuzzy);
        let (name, target) = tab_parts(list.last());
        if trimmed(target).len() == 0 && trimmed(name).len() > 0 && is_match(
            trimmed(name),
            query,
            fuzzy,
        ) {
            earlier.push(trimmed(name))
        } else {
            earlier
        }
    }
}

/// The rows of branches, sorted and each once.
pub fn branch_lines_to_suggestions(stdout: &str, query: &str, fuzzy: bool) -> (out: Vec<Suggestion>)
    ensures
        rows(out@) == name_rows(
            at_most(
                sorted_set(branch_names(lines_of(stdout@), query@, fuzzy)),
                MAX_RESULTS as nat,
            ),
            Seq::empty(),
            "branch"@,
            false,
        ),
{
    proof {
        reveal_strlit("");
        assert(""@ =~= Seq::<char>::empty());
    }
    let list = lines(stdout);
    let ghost all = texts(list@);
    let mut names: Vec<String> = Vec::new();
    let mut i: usize = 0;
    proof {
        assert(texts(names@) =~= Seq::<Seq<char>>::empty());
    }
    while i < list.len()
        invariant
            i <= list@.len(),
            all == texts(list@),
            texts(names@) == branch_names(all.take(i as int), query@, fuzzy),
        decreases list@.len() - i,
    {
        proof {
            assert(all.take(i + 1).drop_last() =~= all.take(i as int));
        }
        let (name, target) = split_at_tab(&list[i]);
        if target.as_str().is_empty() && !name.as_str().is_empty() && matches_query(
            &name,
            query,
            fuzzy,
        ) {
            let ghost had = names@;
            let ghost view = name@;
            names.push(name);
            proof {
                assert(texts(names@) =~= texts(had).push(view));
            }
        }
        i += 1;
    }
    proof {
        assert(all.take(all.len() as int) =~= all);
    }
    rows_of_names(&sort_texts(&names), MAX_RESULTS, "", "branch", false)
}

/// The rows of lines of a name and a description, those that match.
pub open spec fn described_rows(
    list: Seq<Seq<char>>,
    query: Seq<char>,
    fuzzy: bool,
    kind: Seq<char>,
) -> Seq<SuggestionView>
    decreases list.len(),
{
    if list.len() == 0 {
        Seq::empty()
    } else {
        let earlier = described_rows(list.drop_last(), query, fuzzy, kind);
        let (name, description) = tab_parts(list.last());
        if trimmed(name).len() > 0 && is_match(trimmed(name), query, fuzzy) {
            earlier.push(new_row(trimmed(name), trimmed(description), kind))
        } else {
            earlier
        }
    }
}

/// The first rows of lines of a name and a description: commits and stashes.
pub fn described_lines_to_suggestions(stdout: &str, query: &str, fuzzy: bool, kind: &str) -> (out:
    Vec<Suggestion>)
    ensures
        rows(out@) == at_most(
            described_rows(lines_of(stdout@), query@, fuzzy, kind@),
            MAX_RESULTS as nat,
        ),
{
    let list = lines(stdout);
    let ghost all = texts(list@);
    let mut out: Vec<Suggestion> = Vec::new();
    let mut i: usize = 0;
    proof {
        assert(rows(out@) =~= Seq::<SuggestionView>::empty());
    }
    while i < list.len()
        invariant
            i <= list@.len(),
            all == texts(list@),
            rows(out@) == described_rows(all.take(i as int), query@, fuzzy, kind@),
        decreases list@.len() - i,
    {
        proof {
            assert(all.take(i + 1).drop_last() =~= all.take(i as int));
        }
        let (name, description) = split_at_tab(&list[i]);
        if !name.as_str().is_empty() && matches_query(&name, query, fuzzy) {
            let row = Suggestion::new(&name, &description, kind);
            let ghost had = out@;
            let ghost view = row@;
            out.push(row);
            proof {
                assert(rows(out@) =~= rows(had).push(view));
            }
        }
        i += 1;
    }
    proof {
        assert(all.take(all.len() as int) =~= all);
    }
    cut_rows(&mut out);
    out
}

/// Keeps the first rows.
fn cut_rows(out: &mut Vec<Suggestion>)
    ensures
        rows(final(out)@) == at_most(rows(old(out)@), MAX_RESULTS as nat),
{
    let ghost had = out@;
    if out.len() > MAX_RESULTS {
        out.truncate(MAX_RESULTS);
    }
    proof {
        assert(rows(out@) =~= at_most(rows(had), MAX_RESULTS as nat));
    }
}

/// The number of bytes of a character in UTF-8.
pub open spec fn utf8_width(c: char) -> int {
    let n = c as u32;
    if n < 0x80 {
        1
    } else if n < 0x800 {
        2
    } else if n < 0x10000 {
        3
    } else {
        4
    }
}

/// The place of the character that starts at a byte, counted from the
/// character at place `i`; absent inside a character and behind the end.
pub open spec fn place_of_byte(s: Seq<char>, i: int, byte: int) -> Option<int>
    decreases s.len() - i,
{
    if byte == 0 && 0 <= i <= s.len() {
        Some(i)
    } else if byte < 0 || i < 0 || i >= s.len() {
        None
    } else {
        place_of_byte(s, i + 1, byte - utf8_width(s[i]))
    }
}

fn find_byte(s: &[char], byte: usize) -> (place: Option<usize>)
    requires
        byte <= 0x1000,
    ensures
        match place {
            Some(i) => place_of_byte(s@, 0, byte as int) == Some(i as int) && i <= s@.len(),
            None => place_of_byte(s@, 0, byte as int) is None,
        },
{
    let mut left: usize = byte;
    let mut i: usize = 0;
    loop
        invariant
            i <= s@.len(),
            place_of_byte(s@, 0, byte as int) == place_of_byte(s@, i as int, left as int),
        decreases s@.len() - i,
    {
        if left == 0 {
            return Some(i);
        }
        if i >= s.len() {
            return None;
        }
        let n: u32 = s[i] as u32;
        let width: usize = if n < 0x80 {
            1
        } else if n < 0x800 {
            2
        } else if n < 0x10000 {
            3
        } else {
            4
        };
        if width > left {
            proof {
                assert(place_of_byte(s@, i + 1, left - width) is None);
            }
            return None;
        }
        left -= width;
        i += 1;
    }
}

/// Where the text behind leading quotes begins.
pub open spec fn behind_quotes(s: Seq<char>, i: int) -> int
    decreases s.len() - i,
{
    if 0 <= i < s.len() && s[i] == '"' {
        behind_quotes(s, i + 1)
    } else {
        i
    }
}

/// Where the text before trailing quotes ends.
pub open spec fn before_quotes(s: Seq<char>, from: int, to: int) -> int
    decreases to - from,
{
    if from < to && s[to - 1] == '"' {
        before_quotes(s, from, to - 1)
    } else {
        to
    }
}

/// A text without the quotes around it.
pub open spec fn unquoted(s: Seq<char>) -> Seq<char> {
    let from = behind_quotes(s, 0);
    s.subrange(from, before_quotes(s, from, s.len() as int))
}

fn strip_quotes(s: &[char]) -> (text: String)
    ensures
        text@ == unquoted(s@),
{
    let n = s.len();
    let mut from: usize = 0;
    while from < n && s[from] == '"'
        invariant
            from <= n,
            n == s@.len(),
            behind_quotes(s@, 0) == behind_quotes(s@, from as int),
        decreases n - from,
    {
        from += 1;
    }
    let mut to: usize = n;
    while to > from && s[to - 1] == '"'
        invariant
            from <= to <= n,
            n == s@.len(),
            before_quotes(s@, from as int, n as int) == before_quotes(s@, from as int, to as int),
        decreases to,
    {
        to -= 1;
    }
    text_range(s, from, to)
}

/// The path in a line of the short status: what follows the three bytes of the
/// state, the new name where the line shows a renaming, without quotes. Lines
/// without a path give none.
pub open spec fn changed_path(line: Seq<char>) -> Option<Seq<char>> {
    match place_of_byte(line, 0, 3) {
        None => None,
        Some(at) => {
            let path = trimmed(line.skip(at));
            let name = match rfind_spec(path, " -> "@) {
                Some(i) => path.skip(i + 4),
                None => path,
            };
            Some(unquoted(name))
        },
    }
}

/// Computes [`changed_path`].
pub fn parse_changed_file(line: &str) -> (path: Option<String>)
    ensures
        opt_text(path) == changed_path(line@),
{
    let s = chars_of(line);
    let at = match find_byte(&s, 3) {
        None => {
            return None;
        },
        Some(at) => at,
    };
    let rest = text_range(&s, at, s.len());
    proof {
        assert(rest@ =~= s@.skip(at as int));
        reveal_strlit(" -> ");
    }
    let path = chars_of(&trim(&rest));
    let arrow = chars_of(" -> ");
    match rfind(&path, &arrow) {
        Some(i) => {
            let n = path.len();
            let name = text_range(&path, i + 4, n);
            proof {
                assert(name@ =~= path@.skip(i + 4));
            }
            Some(strip_quotes(&chars_of(&name)))
        },
        None => Some(strip_quotes(&path)),
    }
}

/// The changed paths among status lines, those that match.
pub open spec fn changed_paths(list: Seq<Seq<char>>, query: Seq<char>, fuzzy: bool) -> Seq<
    Seq<char>,
>
    decreases list.len(),
{
    if list.len() == 0 {
        Seq::empty()
    } else {
        let earlier = changed_paths(list.drop_last(), query, fuzzy);
        match changed_path(list.last()) {
            Some(path) => if path.len() > 0 && is_match(path, query, fuzzy) {
                earlier.push(path)
            } else {
                earlier
            },
            None => earlier,
        }
    }
}

/// The rows of changed files, sorted and each once.
pub fn changed_files_to_suggestions(stdout: &str, query: &str, fuzzy: bool) -> (out: Vec<Suggestion>)
    ensures
        rows(out@) == name_rows(
            at_most(
                sorted_set(changed_paths(lines_of(stdout@), query@, fuzzy)),
                MAX_RESULTS as nat,
            ),
            "Changed file"@,
            "file"@,
            false,
        ),
{
    let list = lines(stdout);
    let ghost all = texts(list@);
    let mut names: Vec<String> = Vec::new();
    let mut i: usize = 0;
    proof {
        assert(texts(names@) =~= Seq::<Seq<char>>::empty());
    }
    while i < list.len()
        invariant
            i <= list@.len(),
            all == texts(list@),
            texts(names@) == changed_paths(all.take(i as int), query@, fuzzy),
        decreases list@.len() - i,
    {
        proof {
            assert(all.take(i + 1).drop_last() =~= all.take(i as int));
        }
        if let Some(path) = parse_changed_file(&list[i]) {
            if !path.as_str().is_empty() && matches_query(&path, query, fuzzy) {
                let ghost had = names@;
                let ghost view = path@;
                names.push(path);
                proof {
                    assert(texts(names@) =~= texts(had).push(view));
                }
            }
        }
        i += 1;
    }
    proof {
        assert(all.take(all.len() as int) =~= all);
    }
    rows_of_names(&sort_texts(&names), MAX_RESULTS, "Changed file", "file", false)
}

/// The row of a git alias from a line of its configuration.
pub open spec fn alias_row(line: Seq<char>) -> Option<SuggestionView> {
    let l = trimmed(line);
    if !begins_with(l, "alias."@) {
        None
    } else {
        let value = l.skip(6);
        let end = space_from(value, 0);
        if end == 0 {
            None
        } else {
            let expansion = if end < value.len() {
                trimmed(value.skip(end + 1))
            } else {
                Seq::empty()
            };
            Some(new_row(value.take(end), "Alias for '"@ + expansion + "'"@, "arg"@))
        }
    }
}

/// Computes [`alias_row`].
pub fn parse_git_alias(line: &str) -> (row: Option<Suggestion>)
    ensures
        match row {
            Some(row) => alias_row(line@) == Some(row@),
            None => alias_row(line@) is None,
        },
{
    let l = trim(line);
    if !starts_with(&l, "alias.") {
        return None;
    }
    proof {
        reveal_strlit("alias.");
        reveal_strlit("");
    }
    let s = chars_of(&l);
    let rest = text_range(&s, 6, s.len());
    let value = chars_of(&rest);
    let n = value.len();
    proof {
        assert(value@ =~= l@.skip(6));
    }
    let mut end: usize = 0;
    while end < n && !value[end].is_whitespace()
        invariant
            end <= n,
            n == value@.len(),
            space_from(value@, 0) == space_from(value@, end as int),
        decreases n - end,
    {
        end += 1;
    }
    if end == 0 {
        return None;
    }
    let name = text_range(&value, 0, end);
    let expansion = if end < n {
        trim(&text_range(&value, end + 1, n))
    } else {
        String::new()
    };
    proof {
        assert(name@ =~= value@.take(end as int));
        if end < n {
            assert(value@.skip(end + 1) =~= value@.subrange(end + 1, n as int));
        }
        assert(expansion@ =~= if end < n {
            trimmed(value@.skip(end + 1))
        } else {
            Seq::empty()
        });
    }
    let description = concat(&concat("Alias for '", &expansion), "'");
    Some(Suggestion::new(&name, &description, "arg"))
}

/// The rows of the aliases that match.
pub open spec fn alias_rows(list: Seq<Seq<char>>, query: Seq<char>, fuzzy: bool) -> Seq<
    SuggestionView,
>
    decreases list.len(),
{
    if list.len() == 0 {
        Seq::empty()
    } else {
        let earlier = alias_rows(list.drop_last(), query, fuzzy);
        match alias_row(list.last()) {
            Some(row) => if is_match(row.name, query, fuzzy) {
                earlier.push(row)
            } else {
                earlier
            },
            None => earlier,
        }
    }
}

/// The first rows of git aliases.
pub fn aliases_to_suggestions(stdout: &str, query: &str, fuzzy: bool) -> (out: Vec<Suggestion>)
    ensures
        rows(out@) == at_most(alias_rows(lines_of(stdout@), query@, fuzzy), MAX_RESULTS as nat),
{
    let list = lines(stdout);
    let ghost all = texts(list@);
    let mut out: Vec<Suggestion> = Vec::new();
    let mut i: usize = 0;
    proof {
        assert(rows(out@) =~= Seq::<SuggestionView>::empty());
    }
    while i < list.len()
        invariant
            i <= list@.len(),
            all == texts(list@),
            rows(out@) == alias_rows(all.take(i as int), query@, fuzzy),
        decreases list@.len() - i,
    {
        proof {
            assert(all.take(i + 1).drop_last() =~= all.take(i as int));
        }
        if let Some(row) = parse_git_alias(&list[i]) {
            if matches_query(&row.name, query, fuzzy) {
                let ghost had = out@;
                let ghost view = row@;
                out.push(row);
                proof {
                    assert(rows(out@) =~= rows(had).push(view));
                }
            }
        }
        i += 1;
    }
    proof {
        assert(all.take(all.len() as int) =~= all);
    }
    cut_rows(&mut out);
    out
}

// ---------------------------------------------------------------------------
// Directories above
// ---------------------------------------------------------------------------
/// How many directories are searched for a repository: the working directory
/// and those above it.
pub const GIT_DEPTH: usize = 16;

/// How many directories are searched for a package description.
pub const PACKAGE_DEPTH: usize = 8;

/// The paths of a file in a directory and in those above it, nearest first, at
/// most `limit`.
pub open spec fn paths_above(dir: Seq<char>, name: Seq<char>, limit: nat) -> Seq<Seq<char>>
    decreases limit,
{
    if limit == 0 {
        Seq::empty()
    } else {
        seq![path_joined(dir, name)] + match parent_of(dir) {
            Some(parent) => paths_above(parent, name, (limit - 1) as nat),
            None => Seq::empty(),
        }
    }
}

/// Where a search starts: the working directory, or the current one where it is
/// not known.
pub open spec fn search_start(cwd: Seq<char>) -> Seq<char> {
    if cwd.len() == 0 {
        "."@
    } else {
        cwd
    }
}

/// Computes [`paths_above`] from [`search_start`] on.
pub fn files_above(cwd: &str, name: &str, limit: usize) -> (out: Vec<String>)
    ensures
        texts(out@) == paths_above(search_start(cwd@), name@, limit as nat),
{
    let mut dir: Option<String> = if cwd.is_empty() {
        Some(".".to_owned())
    } else {
        Some(cwd.to_owned())
    };
    let ghost stated = paths_above(search_start(cwd@), name@, limit as nat);
    let mut out: Vec<String> = Vec::new();
    let mut left: usize = limit;
    proof {
        assert(texts(out@) + stated =~= stated);
    }
    while left > 0
        invariant
            stated == paths_above(search_start(cwd@), name@, limit as nat),
            stated == texts(out@) + match dir {
                Some(dir) => paths_above(dir@, name@, left as nat),
                None => Seq::empty(),
            },
        decreases left,
    {
        let current = match dir {
            Some(current) => current,
            None => {
                proof {
                    assert(stated =~= texts(out@));
                }
                return out;
            },
        };
        let ghost had = texts(out@);
        let path = join_base(&current, name);
        let ghost first = path@;
        let ghost before = out@;
        out.push(path);
        dir = parent_dir(&current);
        proof {
            assert(texts(out@) =~= texts(before).push(first));
            let rest: Seq<Seq<char>> = match opt_text(dir) {
                Some(dir) => paths_above(dir, name@, (left - 1) as nat),
                None => Seq::empty(),
            };
            assert(had + (seq![first] + rest) =~= had.push(first) + rest);
        }
        left -= 1;
    }
    proof {
        assert(stated =~= texts(out@));
    }
    out
}

/// The newest of times that are known.
pub open spec fn newest_of(times: Seq<Option<u64>>) -> Option<u64>
    decreases times.len(),
{
    if times.len() == 0 {
        None
    } else {
        match (newest_of(times.drop_last()), times.last()) {
            (Some(best), Some(time)) => Some(
                if time > best {
                    time
                } else {
                    best
                },
            ),
            (Some(best), None) => Some(best),
            (None, last) => last,
        }
    }
}

/// Computes [`newest_of`].
pub fn newest(times: &[Option<u64>]) -> (best: Option<u64>)
    ensures
        best == newest_of(times@),
{
    let mut best: Option<u64> = None;
    let mut i: usize = 0;
    while i < times.len()
        invariant
            i <= times@.len(),
            best == newest_of(times@.take(i as int)),
        decreases times@.len() - i,
    {
        proof {
            assert(times@.take(i + 1).drop_last() =~= times@.take(i as int));
            assert(times@.take(i + 1).last() == times@[i as int]);
        }
        best =
        match (best, times[i]) {
            (Some(known), Some(time)) => Some(
                if time > known {
                    time
                } else {
                    known
                },
            ),
            (Some(known), None) => Some(known),
            (None, last) => last,
        };
        i += 1;
    }
    proof {
        assert(times@.take(times@.len() as int) =~= times@);
    }
    best
}

/// The newest known time is one of them, and none is newer.
pub proof fn law_newest_is_newest(times: Seq<Option<u64>>)
    ensures
        match newest_of(times) {
            Some(best) => times.contains(Some(best)) && forall|i: int|
                0 <= i < times.len() ==> (#[trigger] times[i] matches Some(time) ==> time <= best),
            None => forall|i: int| 0 <= i < times.len() ==> #[trigger] times[i] is None,
        },
    decreases times.len(),
{
    if times.len() > 0 {
        let earlier = times.drop_last();
        law_newest_is_newest(earlier);
        assert(times =~= earlier.push(times.last()));
        assert(times[times.len() - 1] == times.last());
        if let Some(best) = newest_of(earlier) {
            let at = choose|i: int| 0 <= i < earlier.len() && earlier[i] == Some(best);
            assert(times[at] == Some(best));
        }
        assert forall|i: int| 0 <= i < times.len() implies match newest_of(times) {
            Some(best) => (#[trigger] times[i] matches Some(time) ==> time <= best),
            None => times[i] is None,
        } by {
            if i < times.len() - 1 {
                assert(times[i] == earlier[i]);
            }
        }
    }
}

// ---------------------------------------------------------------------------
// Worktrees
// ---------------------------------------------------------------------------
/// The directories that the file of a worktree names, from line `i` on, up to
/// the first line that names none.
pub open spec fn worktree_dirs(list: Seq<Seq<char>>, parent: Seq<char>, i: int) -> Seq<Seq<char>>
    decreases list.len() - i,
{
    if i < 0 || i >= list.len() || !begins_with(trimmed(list[i]), "gitdir:"@) {
        Seq::empty()
    } else {
        let path = trimmed(trimmed(list[i]).skip(7));
        if path.len() == 0 {
            worktree_dirs(list, parent, i + 1)
        } else {
            seq![path_joined(parent, path)] + worktree_dirs(list, parent, i + 1)
        }
    }
}

/// The directories that the text of a worktree's file names, in the order in
/// which they are tried.
pub fn gitdir_candidates(text: &str, parent: &str) -> (out: Vec<String>)
    ensures
        texts(out@) == worktree_dirs(lines_of(text@), parent@, 0),
{
    let list = lines(text);
    let ghost all = texts(list@);
    let ghost stated = worktree_dirs(all, parent@, 0);
    let mut out: Vec<String> = Vec::new();
    let mut i: usize = 0;
    proof {
        reveal_strlit("gitdir:");
        assert(texts(out@) + stated =~= stated);
    }
    while i < list.len()
        invariant
            i <= list@.len(),
            all == texts(list@),
            all == lines_of(text@),
            "gitdir:"@.len() == 7,
            stated == worktree_dirs(all, parent@, 0),
            texts(out@) + worktree_dirs(all, parent@, i as int) == stated,
        decreases list@.len() - i,
    {
        let line = trim(&list[i]);
        let ghost rest = worktree_dirs(all, parent@, i as int);
        if !starts_with(&line, "gitdir:") {
            proof {
                assert(texts(out@) + rest =~= texts(out@));
            }
            return out;
        }
        let s = chars_of(&line);
        let tail = text_range(&s, 7, s.len());
        proof {
            assert(tail@ =~= line@.skip(7));
        }
        let path = trim(&tail);
        if !path.as_str().is_empty() {
            let dir = join_base(parent, &path);
            let ghost had = out@;
            let ghost view = dir@;
            out.push(dir);
            proof {
                assert(texts(out@) =~= texts(had).push(view));
                assert(texts(out@) + worktree_dirs(all, parent@, i + 1) =~= texts(had) + rest);
            }
        }
        i += 1;
    }
    proof {
        assert(texts(out@) + worktree_dirs(all, parent@, i as int) =~= texts(out@));
    }
    out
}

// ---------------------------------------------------------------------------
// Package descriptions
// ---------------------------------------------------------------------------
/// The members of the object under a key of a package description.
pub open spec fn section(package: JsonView, key: Seq<char>) -> Option<Seq<(Seq<char>, JsonView)>> {
    match package {
        JsonView::Object(members) => match value_under(members, key, 0) {
            Some(JsonView::Object(inner)) => Some(inner),
            _ => None,
        },
        _ => None,
    }
}

/// Computes [`section`].
fn find_section<'a>(package: &'a Json, key: &str) -> (members: Option<&'a Vec<(String, Json)>>)
    ensures
        match members {
            Some(members) => section(package@, key@) == Some(member_views(members@)),
            None => section(package@, key@) is None,
        },
{
    match package {
        Json::Object(members) => {
            let ghost views = member_views(members@);
            proof {
                lemma_object_view(*package, *members);
            }
            let mut i: usize = 0;
            while i < members.len()
                invariant
                    i <= members@.len(),
                    views == member_views(members@),
                    package@ == JsonView::Object(views),
                    value_under(views, key@, 0) == value_under(views, key@, i as int),
                decreases members@.len() - i,
            {
                if same(&members[i].0, key) {
                    return match &members[i].1 {
                        Json::Object(inner) => {
                            proof {
                                lemma_object_view(members@[i as int].1, *inner);
                            }
                            Some(inner)
                        },
                        _ => None,
                    };
                }
                i += 1;
            }
            None
        },
        _ => None,
    }
}

/// The text of a JSON text, else the empty text.
pub open spec fn text_or_empty(value: JsonView) -> Seq<char> {
    match value {
        JsonView::Text(text) => text,
        _ => Seq::empty(),
    }
}

/// The scripts of a section that match, with their commands.
pub open spec fn script_pairs(
    members: Seq<(Seq<char>, JsonView)>,
    query: Seq<char>,
    fuzzy: bool,
) -> Seq<(Seq<char>, Seq<char>)>
    decreases members.len(),
{
    if members.len() == 0 {
        Seq::empty()
    } else {
        let earlier = script_pairs(members.drop_last(), query, fuzzy);
        if is_match(members.last().0, query, fuzzy) {
            earlier.push((members.last().0, text_or_empty(members.last().1)))
        } else {
            earlier
        }
    }
}

/// The rows of pairs of a name and a description.
pub open spec fn pair_rows(list: Seq<(Seq<char>, Seq<char>)>, kind: Seq<char>) -> Seq<SuggestionView> {
    Seq::new(list.len(), |i: int| new_row(list[i].0, list[i].1, kind))
}

/// The rows of the scripts of a package, sorted by name.
pub open spec fn script_rows(package: JsonView, query: Seq<char>, fuzzy: bool) -> Seq<SuggestionView> {
    match section(package, "scripts"@) {
        Some(members) => at_most(
            pair_rows(sorted_pairs(script_pairs(members, query, fuzzy)), "arg"@),
            MAX_RESULTS as nat,
        ),
        None => Seq::empty(),
    }
}

/// Computes [`script_rows`].
pub fn script_suggestions(package: &Json, query: &str, fuzzy: bool) -> (out: Vec<Suggestion>)
    ensures
        rows(out@) == script_rows(package@, query@, fuzzy),
{
    let mut out: Vec<Suggestion> = Vec::new();
    proof {
        assert(rows(out@) =~= Seq::<SuggestionView>::empty());
    }
    let members = match find_section(package, "scripts") {
        Some(members) => members,
        None => {
            return out;
        },
    };
    let ghost all = member_views(members@);
    let mut pairs: Vec<(String, String)> = Vec::new();
    let mut i: usize = 0;
    proof {
        assert(pair_texts(pairs@) =~= Seq::<(Seq<char>, Seq<char>)>::empty());
    }
    while i < members.len()
        invariant
            i <= members@.len(),
            all == member_views(members@),
            pair_texts(pairs@) == script_pairs(all.take(i as int), query@, fuzzy),
        decreases members@.len() - i,
    {
        proof {
            assert(all.take(i + 1).drop_last() =~= all.take(i as int));
            assert(all.take(i + 1).last() == (members@[i as int].0@, members@[i as int].1@));
        }
        if matches_query(&members[i].0, query, fuzzy) {
            let command = match &members[i].1 {
                Json::Text(text) => text.clone(),
                _ => String::new(),
            };
            proof {
                assert(command@ =~= text_or_empty(members@[i as int].1@));
            }
            let ghost had = pairs@;
            let ghost view = (members@[i as int].0@, command@);
            pairs.push((members[i].0.clone(), command));
            proof {
                assert(pair_texts(pairs@) =~= pair_texts(had).push(view));
            }
        }
        i += 1;
    }
    proof {
        assert(all.take(all.len() as int) =~= all);
    }
    let sorted = sort_pairs(&pairs);
    let ghost stated = pair_rows(pair_texts(sorted@), "arg"@);
    let mut k: usize = 0;
    proof {
        assert(rows(out@) =~= stated.take(0));
    }
    while k < sorted.len()
        invariant
            k <= sorted@.len(),
            stated == pair_rows(pair_texts(sorted@), "arg"@),
            rows(out@) == stated.take(k as int),
        decreases sorted@.len() - k,
    {
        let row = Suggestion::new(&sorted[k].0, &sorted[k].1, "arg");
        let ghost had = out@;
        let ghost view = row@;
        out.push(row);
        k += 1;
        proof {
            assert(rows(out@) =~= rows(had).push(view));
            assert(stated.take(k as int) =~= stated.take(k - 1).push(view));
        }
    }
    proof {
        assert(stated.take(stated.len() as int) =~= stated);
    }
    cut_rows(&mut out);
    out
}

/// The names in a section of a package.
pub open spec fn section_names(package: JsonView, key: Seq<char>) -> Seq<Seq<char>> {
    match section(package, key) {
        Some(members) => Seq::new(members.len(), |i: int| members[i].0),
        None => Seq::empty(),
    }
}

/// The rows of all dependencies of a package, sorted and each once.
pub open spec fn dependency_rows(package: JsonView, query: Seq<char>, fuzzy: bool) -> Seq<
    SuggestionView,
> {
    let names = section_names(package, "dependencies"@) + section_names(
        package,
        "devDependencies"@,
    ) + section_names(package, "optionalDependencies"@);
    name_rows(
        at_most(matching(sorted_set(names), query, fuzzy), MAX_RESULTS as nat),
        "dependency"@,
        "arg"@,
        false,
    )
}

fn add_section_names(names: &mut Vec<String>, package: &Json, key: &str)
    ensures
        texts(final(names)@) == texts(old(names)@) + section_names(package@, key@),
{
    let ghost start = texts(names@);
    let ghost more = section_names(package@, key@);
    proof {
        assert(start + more.take(0) =~= start);
    }
    if let Some(members) = find_section(package, key) {
        let mut i: usize = 0;
        while i < members.len()
            invariant
                i <= members@.len(),
                more.len() == members@.len(),
                forall|k: int| 0 <= k < more.len() ==> more[k] == (#[trigger] members@[k]).0@,
                texts(names@) == start + more.take(i as int),
            decreases members@.len() - i,
        {
            let ghost had = names@;
            names.push(members[i].0.clone());
            i += 1;
            proof {
                assert(texts(names@) =~= texts(had).push(members@[i - 1].0@));
                assert(more.take(i as int) =~= more.take(i - 1).push(members@[i - 1].0@));
                assert(texts(names@) =~= start + more.take(i as int));
            }
        }
        proof {
            assert(more.take(more.len() as int) =~= more);
        }
    } else {
        proof {
            assert(more =~= more.take(0));
        }
    }
}

/// Computes [`dependency_rows`].
pub fn dependency_suggestions(package: &Json, query: &str, fuzzy: bool) -> (out: Vec<Suggestion>)
    ensures
        rows(out@) == dependency_rows(package@, query@, fuzzy),
{
    let mut names: Vec<String> = Vec::new();
    add_section_names(&mut names, package, "dependencies");
    add_section_names(&mut names, package, "devDependencies");
    add_section_names(&mut names, package, "optionalDependencies");
    proof {
        let stated = section_names(package@, "dependencies"@) + section_names(
            package@,
            "devDependencies"@,
        ) + section_names(package@, "optionalDependencies"@);
        assert(texts(names@) =~= stated);
    }
    let sorted = sort_texts(&names);
    rows_of_names(&keep_matching(&sorted, query, fuzzy), MAX_RESULTS, "dependency", "arg", false)
}

/// The rows of the scripts in the bytes of a package description.
pub fn npm_scripts(package: Option<&[u8]>, query: &str, fuzzy: bool) -> (out: Vec<Suggestion>)
    ensures
        rows(out@) == (match package {
            Some(bytes) => match document(bytes@) {
                Some(json) => script_rows(json, query@, fuzzy),
                None => Seq::empty(),
            },
            None => Seq::empty(),
        }),
{
    if let Some(bytes) = package {
        if let Some(json) = parse(bytes) {
            return script_suggestions(&json, query, fuzzy);
        }
    }
    let none: Vec<Suggestion> = Vec::new();
    proof {
        assert(rows(none@) =~= Seq::<SuggestionView>::empty());
    }
    none
}

/// The rows of the dependencies in the bytes of a package description.
pub fn npm_deps(package: Option<&[u8]>, query: &str, fuzzy: bool) -> (out: Vec<Suggestion>)
    ensures
        rows(out@) == (match package {
            Some(bytes) => match document(bytes@) {
                Some(json) => dependency_rows(json, query@, fuzzy),
                None => Seq::empty(),
            },
            None => Seq::empty(),
        }),
{
    if let Some(bytes) = package {
        if let Some(json) = parse(bytes) {
            return dependency_suggestions(&json, query, fuzzy);
        }
    }
    let none: Vec<Suggestion> = Vec::new();
    proof {
        assert(rows(none@) =~= Seq::<SuggestionView>::empty());
    }
    none
}

} // verus!
