//! Laws of rows that come from the output of programs and from manifests.
use vstd::prelude::*;

use super::text::{
    law_index_is_the_first, law_prefixes, law_rfind_is_the_last,
    law_trimming_drops_the_spaces_around,
};
use crate::filegen::expand::path_joined;
use crate::generate::shape::{
    alias_row, alias_rows, at_most, before_quotes, behind_quotes, branch_names, changed_path,
    changed_paths, dependency_rows, described_rows, line_rows, matching, paths_above, place_of_byte,
    script_pairs, script_rows, section, section_names, tab_parts, text_or_empty, trimmed_parts,
    unquoted, worktree_dirs, MAX_RESULTS,
};
use crate::json::JsonView;
use crate::paths::parent_of;
use crate::query::is_match;
use crate::runtime::SuggestionView;
use crate::sorted::{law_sorted_set, pair_place, sorted_pairs, sorted_set};
use crate::text::{
    before, begins_with, is_space, lines_of, rfind_from, rfind_spec, space_from, trimmed,
};

verus! {

/// A cut list is the beginning of the list, as long as the limit lets it be.
pub proof fn law_cut_lists_are_beginnings<T>(list: Seq<T>, n: nat)
    ensures
        at_most(list, n).len() == if list.len() < n {
            list.len()
        } else {
            n
        },
        forall|i: int| 0 <= i < at_most(list, n).len() ==> #[trigger] at_most(list, n)[i] == list[i],
        list.len() <= n ==> at_most(list, n) == list,
        MAX_RESULTS == 50,
{
}

/// A line says `name`, and behind its first tab, if it has one, `description`;
/// both without the white space around them.
pub open spec fn line_says(line: Seq<char>, name: Seq<char>, description: Seq<char>) -> bool {
    exists|n: Seq<char>, d: Seq<char>|
        {
            &&& (line == #[trigger] (n + "\t"@ + d) || (line == n && d.len() == 0))
            &&& forall|k: int| 0 <= k < n.len() ==> #[trigger] n[k] != '\t'
            &&& trimmed(n) == name
            &&& trimmed(d) == description
        }
}

pub proof fn lemma_tab_parts(line: Seq<char>)
    ensures
        forall|name: Seq<char>, description: Seq<char>| #[trigger]
            line_says(line, name, description) <==> name == trimmed(tab_parts(line).0) && description
                == trimmed(tab_parts(line).1),
{
    reveal_strlit("\t");
    let tab = crate::text::index_from(line, '\t', 0);
    law_index_is_the_first(line, '\t', 0);
    let (first, second) = tab_parts(line);
    if tab < line.len() {
        assert(line =~= first + "\t"@ + second);
    } else {
        let none = Seq::<char>::empty();
        assert(line == first);
        assert(second =~= none);
        assert(first + "\t"@ + second == first + "\t"@ + none);
    }
    assert forall|name: Seq<char>, description: Seq<char>| #[trigger]
        line_says(line, name, description) implies name == trimmed(tab_parts(line).0) && description
        == trimmed(tab_parts(line).1) by {
        let (n, d) = choose|n: Seq<char>, d: Seq<char>|
            {
                &&& (line == #[trigger] (n + "\t"@ + d) || (line == n && d.len() == 0))
                &&& forall|k: int| 0 <= k < n.len() ==> #[trigger] n[k] != '\t'
                &&& trimmed(n) == name
                &&& trimmed(d) == description
            };
        if line == n + "\t"@ + d {
            assert(line[n.len() as int] == '\t');
            assert forall|k: int| 0 <= k < n.len() implies line[k] != '\t' by {
                assert(line[k] == n[k]);
            }
            assert(tab == n.len());
            assert(line.take(tab) =~= n);
            assert(line.skip(tab + 1) =~= d);
        } else {
            assert(line == n && d.len() == 0);
            assert(tab == line.len());
            assert(d =~= Seq::<char>::empty());
        }
    }
}

/// Every row of commits or stashes stands for a line: it has the line's name,
/// which matches the query, and the line's description.
pub proof fn law_described_rows_match(
    list: Seq<Seq<char>>,
    query: Seq<char>,
    fuzzy: bool,
    kind: Seq<char>,
)
    ensures
        forall|i: int|
            0 <= i < described_rows(list, query, fuzzy, kind).len() ==> {
                let row = #[trigger] described_rows(list, query, fuzzy, kind)[i];
                &&& row.name.len() > 0
                &&& is_match(row.name, query, fuzzy)
                &&& row.kind == kind
                &&& exists|k: int|
                    0 <= k < list.len() && line_says(#[trigger] list[k], row.name, row.description)
            },
    decreases list.len(),
{
    if list.len() > 0 {
        let rest = list.drop_last();
        let out = described_rows(list, query, fuzzy, kind);
        let earlier = described_rows(rest, query, fuzzy, kind);
        law_described_rows_match(rest, query, fuzzy, kind);
        lemma_tab_parts(list.last());
        assert forall|i: int| 0 <= i < out.len() implies {
            let row = #[trigger] out[i];
            &&& row.name.len() > 0
            &&& is_match(row.name, query, fuzzy)
            &&& row.kind == kind
            &&& exists|k: int|
                0 <= k < list.len() && line_says(#[trigger] list[k], row.name, row.description)
        } by {
            let row = out[i];
            if i < earlier.len() {
                assert(row == earlier[i]);
                let k = choose|k: int|
                    0 <= k < rest.len() && line_says(#[trigger] rest[k], row.name, row.description);
                assert(rest[k] == list[k]);
            } else {
                assert(line_says(list[list.len() - 1], row.name, row.description));
            }
        }
    }
}

/// Every line of commits or stashes whose name is not empty and matches the query
/// gives a row with that name and the line's description.
pub proof fn law_matching_lines_give_rows(
    list: Seq<Seq<char>>,
    query: Seq<char>,
    fuzzy: bool,
    kind: Seq<char>,
    k: int,
    name: Seq<char>,
    description: Seq<char>,
)
    requires
        0 <= k < list.len(),
        line_says(list[k], name, description),
        name.len() > 0,
        is_match(name, query, fuzzy),
    ensures
        exists|i: int|
            0 <= i < described_rows(list, query, fuzzy, kind).len() && {
                let row = #[trigger] described_rows(list, query, fuzzy, kind)[i];
                row.name == name && row.description == description && row.kind == kind
            },
    decreases list.len(),
{
    let rest = list.drop_last();
    let out = described_rows(list, query, fuzzy, kind);
    let earlier = described_rows(rest, query, fuzzy, kind);
    if k < rest.len() {
        assert(rest[k] == list[k]);
        law_matching_lines_give_rows(rest, query, fuzzy, kind, k, name, description);
        let i = choose|i: int|
            0 <= i < earlier.len() && {
                let row = #[trigger] earlier[i];
                row.name == name && row.description == description && row.kind == kind
            };
        assert(out[i] == earlier[i]);
    } else {
        lemma_tab_parts(list.last());
        assert(out.last().name == name);
        assert(out[out.len() - 1] == out.last());
    }
}

/// Rows come in the order of their lines: those of two outputs, one behind the
/// other, are those of the first and then those of the second.
pub proof fn law_described_rows_follow_their_lines(
    a: Seq<Seq<char>>,
    b: Seq<Seq<char>>,
    query: Seq<char>,
    fuzzy: bool,
    kind: Seq<char>,
)
    ensures
        described_rows(a + b, query, fuzzy, kind) == described_rows(a, query, fuzzy, kind)
            + described_rows(b, query, fuzzy, kind),
    decreases b.len(),
{
    if b.len() == 0 {
        assert(a + b =~= a);
        assert(described_rows(b, query, fuzzy, kind).len() == 0);
    } else {
        law_described_rows_follow_their_lines(a, b.drop_last(), query, fuzzy, kind);
        assert((a + b).drop_last() =~= a + b.drop_last());
        assert((a + b).last() == b.last());
        assert(described_rows(a + b, query, fuzzy, kind) =~= described_rows(a, query, fuzzy, kind)
            + described_rows(b, query, fuzzy, kind));
    }
}

/// The names that are kept are those that match, and they keep their order.
pub proof fn law_matching_keeps_what_matches(
    names: Seq<Seq<char>>,
    more: Seq<Seq<char>>,
    query: Seq<char>,
    fuzzy: bool,
)
    ensures
        forall|t: Seq<char>| #[trigger]
            matching(names, query, fuzzy).contains(t) <==> names.contains(t) && is_match(
                t,
                query,
                fuzzy,
            ),
        matching(names + more, query, fuzzy) == matching(names, query, fuzzy) + matching(
            more,
            query,
            fuzzy,
        ),
    decreases names.len() + more.len(),
{
    if more.len() > 0 {
        law_matching_keeps_what_matches(names, more.drop_last(), query, fuzzy);
        assert((names + more).drop_last() =~= names + more.drop_last());
        assert((names + more).last() == more.last());
        assert(matching(names + more, query, fuzzy) =~= matching(names, query, fuzzy) + matching(
            more,
            query,
            fuzzy,
        ));
    } else {
        assert(names + more =~= names);
        assert(matching(more, query, fuzzy).len() == 0);
        assert(matching(names + more, query, fuzzy) =~= matching(names, query, fuzzy) + matching(
            more,
            query,
            fuzzy,
        ));
        if names.len() > 0 {
            let rest = names.drop_last();
            law_matching_keeps_what_matches(rest, more, query, fuzzy);
            let earlier = matching(rest, query, fuzzy);
            let out = matching(names, query, fuzzy);
            assert(names =~= rest.push(names.last()));
            assert forall|t: Seq<char>| #[trigger] out.contains(t) <==> names.contains(t)
                && is_match(t, query, fuzzy) by {
                assert(earlier.contains(t) <==> rest.contains(t) && is_match(t, query, fuzzy));
                lemma_push_contains(rest, names.last(), t);
                lemma_push_contains(earlier, names.last(), t);
            }
        }
    }
}

pub proof fn lemma_push_contains<T>(list: Seq<T>, last: T, t: T)
    ensures
        list.push(last).contains(t) <==> list.contains(t) || t == last,
{
    let out = list.push(last);
    if list.contains(t) {
        let i = choose|i: int| 0 <= i < list.len() && list[i] == t;
        assert(out[i] == t);
    }
    if t == last {
        assert(out[list.len() as int] == t);
    }
    if out.contains(t) {
        let i = choose|i: int| 0 <= i < out.len() && out[i] == t;
        if i < list.len() {
            assert(list[i] == t);
        }
    }
}

/// The parts that are kept are those with something but white space in them,
/// without the white space around it, in their order.
pub proof fn law_trimmed_parts_are_not_empty(parts: Seq<Seq<char>>, more: Seq<Seq<char>>)
    ensures
        forall|t: Seq<char>| #[trigger]
            trimmed_parts(parts).contains(t) <==> t.len() > 0 && exists|k: int|
                0 <= k < parts.len() && trimmed(#[trigger] parts[k]) == t,
        trimmed_parts(parts + more) == trimmed_parts(parts) + trimmed_parts(more),
    decreases parts.len() + more.len(),
{
    if more.len() > 0 {
        law_trimmed_parts_are_not_empty(parts, more.drop_last());
        assert((parts + more).drop_last() =~= parts + more.drop_last());
        assert((parts + more).last() == more.last());
        assert(trimmed_parts(parts + more) =~= trimmed_parts(parts) + trimmed_parts(more));
    } else {
        assert(parts + more =~= parts);
        assert(trimmed_parts(parts + more) =~= trimmed_parts(parts) + trimmed_parts(more));
        if parts.len() > 0 {
            let rest = parts.drop_last();
            law_trimmed_parts_are_not_empty(rest, more);
            let earlier = trimmed_parts(rest);
            let out = trimmed_parts(parts);
            assert forall|t: Seq<char>| #[trigger] out.contains(t) <==> t.len() > 0 && exists|k: int|
                0 <= k < parts.len() && trimmed(#[trigger] parts[k]) == t by {
                lemma_push_contains(earlier, trimmed(parts.last()), t);
                assert(earlier.contains(t) <==> t.len() > 0 && exists|k: int|
                    0 <= k < rest.len() && trimmed(#[trigger] rest[k]) == t);
                if exists|k: int| 0 <= k < rest.len() && trimmed(#[trigger] rest[k]) == t {
                    let k = choose|k: int| 0 <= k < rest.len() && trimmed(#[trigger] rest[k]) == t;
                    assert(trimmed(parts[k]) == t);
                }
                if trimmed(parts.last()) == t {
                    assert(trimmed(parts[parts.len() - 1]) == t);
                }
                if exists|k: int| 0 <= k < parts.len() && trimmed(#[trigger] parts[k]) == t {
                    let k = choose|k: int| 0 <= k < parts.len() && trimmed(#[trigger] parts[k]) == t;
                    if k < rest.len() {
                        assert(trimmed(rest[k]) == t);
                    }
                }
            }
        }
    }
}

/// The branches offered are the lines with a name that matches and with nothing
/// behind it: a line that says where the name points to is not one.
pub proof fn law_branches_are_plain_lines(list: Seq<Seq<char>>, query: Seq<char>, fuzzy: bool)
    ensures
        forall|t: Seq<char>| #[trigger]
            branch_names(list, query, fuzzy).contains(t) <==> t.len() > 0 && is_match(t, query, fuzzy)
                && exists|k: int| 0 <= k < list.len() && line_says(#[trigger] list[k], t, Seq::empty()),
    decreases list.len(),
{
    if list.len() > 0 {
        let rest = list.drop_last();
        law_branches_are_plain_lines(rest, query, fuzzy);
        let earlier = branch_names(rest, query, fuzzy);
        let out = branch_names(list, query, fuzzy);
        lemma_tab_parts(list.last());
        let none = Seq::<char>::empty();
        let (name, target) = tab_parts(list.last());
        assert(trimmed(target).len() == 0 <==> trimmed(target) =~= none);
        assert forall|t: Seq<char>| #[trigger] out.contains(t) <==> t.len() > 0 && is_match(
            t,
            query,
            fuzzy,
        ) && exists|k: int| 0 <= k < list.len() && line_says(#[trigger] list[k], t, none) by {
            lemma_push_contains(earlier, trimmed(name), t);
            assert(earlier.contains(t) <==> t.len() > 0 && is_match(t, query, fuzzy) && exists|k: int|
                0 <= k < rest.len() && line_says(#[trigger] rest[k], t, none));
            if exists|k: int| 0 <= k < rest.len() && line_says(#[trigger] rest[k], t, none) {
                let k = choose|k: int| 0 <= k < rest.len() && line_says(#[trigger] rest[k], t, none);
                assert(line_says(list[k], t, none));
            }
            if line_says(list.last(), t, none) {
                assert(line_says(list[list.len() - 1], t, none));
            }
            if exists|k: int| 0 <= k < list.len() && line_says(#[trigger] list[k], t, none) {
                let k = choose|k: int| 0 <= k < list.len() && line_says(#[trigger] list[k], t, none);
                if k < rest.len() {
                    assert(line_says(rest[k], t, none));
                }
            }
        }
    }
}

/// The rows of lines are the lines that match, in dictionary order, each once;
/// none is left out unless there are too many.
pub proof fn law_line_rows_are_sorted(stdout: Seq<char>, query: Seq<char>, fuzzy: bool, kind: Seq<char>)
    ensures
        ({
            let out = line_rows(stdout, query, fuzzy, kind);
            let lines = lines_of(stdout);
            &&& forall|i: int, j: int| #![trigger out[i], out[j]]
                0 <= i < j < out.len() ==> before(out[i].name, out[j].name)
            &&& forall|i: int|
                0 <= i < out.len() ==> is_match((#[trigger] out[i]).name, query, fuzzy) && exists|
                    k: int,
                | 0 <= k < lines.len() && trimmed(#[trigger] lines[k]) == out[i].name
            &&& lines.len() <= 50 ==> forall|k: int|
                0 <= k < lines.len() && trimmed(#[trigger] lines[k]).len() > 0 && is_match(
                    trimmed(lines[k]),
                    query,
                    fuzzy,
                ) ==> exists|i: int| 0 <= i < out.len() && (#[trigger] out[i]).name == trimmed(lines[k])
        }),
{
    let lines = lines_of(stdout);
    let none = Seq::<Seq<char>>::empty();
    let parts = trimmed_parts(lines);
    let names = matching(parts, query, fuzzy);
    let all = sorted_set(names);
    let kept = at_most(all, MAX_RESULTS as nat);
    let out = line_rows(stdout, query, fuzzy, kind);
    law_trimmed_parts_are_not_empty(lines, none);
    law_matching_keeps_what_matches(parts, none, query, fuzzy);
    law_sorted_set(names);
    law_cut_lists_are_beginnings(all, MAX_RESULTS as nat);
    assert forall|i: int| 0 <= i < out.len() implies is_match(
        (#[trigger] out[i]).name,
        query,
        fuzzy,
    ) && exists|k: int| 0 <= k < lines.len() && trimmed(#[trigger] lines[k]) == out[i].name by {
        assert(out[i].name == kept[i]);
        assert(kept[i] == all[i]);
        assert(all.contains(all[i]));
        assert(names.contains(all[i]));
        assert(parts.contains(all[i]));
    }
    assert forall|i: int, j: int| #![trigger out[i], out[j]] 0 <= i < j < out.len() implies before(
        out[i].name,
        out[j].name,
    ) by {
        assert(out[i].name == kept[i]);
        assert(kept[i] == all[i]);
        assert(out[j].name == kept[j]);
        assert(kept[j] == all[j]);
    }
    if lines.len() <= 50 {
        lemma_trimmed_len(lines);
        lemma_matching_len(parts, query, fuzzy);
        lemma_sorted_len(names);
        assert forall|k: int|
            0 <= k < lines.len() && trimmed(#[trigger] lines[k]).len() > 0 && is_match(
                trimmed(lines[k]),
                query,
                fuzzy,
            ) implies exists|i: int| 0 <= i < out.len() && (#[trigger] out[i]).name == trimmed(lines[k]) by {
            let t = trimmed(lines[k]);
            assert(parts.contains(t));
            assert(names.contains(t));
            assert(all.contains(t));
            let i = choose|i: int| 0 <= i < all.len() && all[i] == t;
            assert(kept == all);
            assert(out[i].name == t);
        }
    }
}

proof fn lemma_trimmed_len(parts: Seq<Seq<char>>)
    ensures
        trimmed_parts(parts).len() <= parts.len(),
    decreases parts.len(),
{
    if parts.len() > 0 {
        lemma_trimmed_len(parts.drop_last());
    }
}

pub proof fn lemma_matching_len(names: Seq<Seq<char>>, query: Seq<char>, fuzzy: bool)
    ensures
        matching(names, query, fuzzy).len() <= names.len(),
    decreases names.len(),
{
    if names.len() > 0 {
        lemma_matching_len(names.drop_last(), query, fuzzy);
    }
}

pub proof fn lemma_sorted_len(list: Seq<Seq<char>>)
    ensures
        sorted_set(list).len() <= list.len(),
    decreases list.len(),
{
    if list.len() > 0 {
        lemma_sorted_len(list.drop_last());
        lemma_text_place(sorted_set(list.drop_last()), list.last(), 0);
    }
}

proof fn lemma_text_place(list: Seq<Seq<char>>, text: Seq<char>, i: int)
    requires
        0 <= i <= list.len(),
    ensures
        i <= crate::sorted::text_place(list, text, i) <= list.len(),
    decreases list.len() - i,
{
    if i < list.len() {
        lemma_text_place(list, text, i + 1);
    }
}

/// No place of `s` from `from` on holds `pat`.
pub open spec fn is_free_of(s: Seq<char>, pat: Seq<char>, from: int) -> bool {
    forall|k: int| from <= k && k + pat.len() <= s.len() ==> #[trigger] s.subrange(k, k + pat.len()) != pat
}

pub proof fn lemma_rfind_none(s: Seq<char>, pat: Seq<char>, from: int)
    requires
        is_free_of(s, pat, 0),
        from + pat.len() <= s.len(),
    ensures
        rfind_from(s, pat, from) is None,
    decreases from + 1,
{
    if from >= 0 {
        assert(s.subrange(from, from + pat.len()) != pat);
        lemma_rfind_none(s, pat, from - 1);
    }
}

proof fn lemma_rfind_exact(s: Seq<char>, pat: Seq<char>, k: int)
    requires
        0 <= k,
        k + pat.len() <= s.len(),
        s.subrange(k, k + pat.len()) == pat,
        is_free_of(s, pat, k + 1),
    ensures
        rfind_spec(s, pat) == Some(k),
{
    law_rfind_is_the_last(s, pat, k);
    let found = rfind_spec(s, pat)->Some_0;
    if found > k {
        assert(s.subrange(found, found + pat.len()) != pat);
    }
}

proof fn lemma_three_bytes(s: Seq<char>)
    requires
        s.len() >= 3,
        (s[0] as u32) < 0x80,
        (s[1] as u32) < 0x80,
        (s[2] as u32) < 0x80,
    ensures
        place_of_byte(s, 0, 3) == Some(3int),
{
    assert(place_of_byte(s, 3, 0) == Some(3int));
    assert(place_of_byte(s, 2, 1) == place_of_byte(s, 3, 0));
    assert(place_of_byte(s, 1, 2) == place_of_byte(s, 2, 1));
}

/// A path without quotes at its ends is not changed by taking quotes off.
proof fn lemma_unquoted_plain(s: Seq<char>)
    requires
        s.len() > 0,
        s[0] != '"',
        s.last() != '"',
    ensures
        unquoted(s) == s,
{
    assert(behind_quotes(s, 0) == 0);
    assert(before_quotes(s, 0, s.len() as int) == s.len());
    assert(s.subrange(0, s.len() as int) =~= s);
}

proof fn lemma_unquoted_quoted(s: Seq<char>)
    requires
        s.len() > 0,
        s[0] != '"',
        s.last() != '"',
    ensures
        unquoted("\""@ + s + "\""@) == s,
{
    reveal_strlit("\"");
    let q = "\""@ + s + "\""@;
    let n = s.len() as int;
    assert(q[0] == '"');
    assert(q[1] == s[0]);
    assert(q[n] == s.last());
    assert(q[n + 1] == '"');
    assert(behind_quotes(q, 1) == 1);
    assert(behind_quotes(q, 0) == 1);
    assert(before_quotes(q, 1, n + 1) == n + 1);
    assert(before_quotes(q, 1, n + 2) == n + 1);
    assert(q.subrange(1, n + 1) =~= s);
}

/// The path of a changed file stands behind the two letters of its state and a
/// space; of a file that was renamed it is the new name; quotes are taken off.
pub proof fn law_changed_paths_are_read(state: Seq<char>, old: Seq<char>, path: Seq<char>)
    requires
        state.len() == 3,
        forall|i: int| 0 <= i < 3 ==> (#[trigger] state[i] as u32) < 0x80,
        path.len() > 0,
        !is_space(path[0]),
        !is_space(path.last()),
        path[0] != '"',
        path.last() != '"',
        is_free_of(path, " -> "@, 0),
    ensures
        changed_path(state + path) == Some(path),
        is_free_of("\""@ + path + "\""@, " -> "@, 0) ==> changed_path(
            state + ("\""@ + path + "\""@),
        ) == Some(path),
        old.len() > 0 && !is_space(old[0]) && is_free_of(" -> "@ + path, " -> "@, 1)
            ==> changed_path(state + (old + " -> "@ + path)) == Some(path),
{
    reveal_strlit("\"");
    reveal_strlit(" -> ");
    let quoted = "\""@ + path + "\""@;
    lemma_changed(state, path);
    lemma_rfind_none(path, " -> "@, path.len() - 4);
    lemma_unquoted_plain(path);
    if is_free_of(quoted, " -> "@, 0) {
        assert(quoted.last() == '"');
        lemma_changed(state, quoted);
        lemma_rfind_none(quoted, " -> "@, quoted.len() - 4);
        lemma_unquoted_quoted(path);
    }
    if old.len() > 0 && !is_space(old[0]) && is_free_of(" -> "@ + path, " -> "@, 1) {
        let arrow = " -> "@;
        let whole = old + arrow + path;
        assert(whole[0] == old[0]);
        assert(whole.last() == path.last());
        lemma_changed(state, whole);
        let n = old.len() as int;
        assert(whole.subrange(n, n + 4) =~= arrow);
        assert forall|k: int| n + 1 <= k && k + arrow.len() <= whole.len() implies #[trigger] whole.subrange(
            k,
            k + arrow.len(),
        ) != arrow by {
            let tail = arrow + path;
            assert(whole.subrange(k, k + arrow.len()) =~= tail.subrange(k - n, k - n + arrow.len()));
        }
        lemma_rfind_exact(whole, arrow, n);
        assert(whole.skip(n + 4) =~= path);
    }
}

proof fn lemma_changed(state: Seq<char>, rest: Seq<char>)
    requires
        state.len() == 3,
        forall|i: int| 0 <= i < 3 ==> (#[trigger] state[i] as u32) < 0x80,
        rest.len() > 0,
        !is_space(rest[0]),
        !is_space(rest.last()),
    ensures
        changed_path(state + rest) == Some(
            unquoted(
                match rfind_spec(rest, " -> "@) {
                    Some(i) => rest.skip(i + 4),
                    None => rest,
                },
            ),
        ),
{
    let line = state + rest;
    assert(line[0] == state[0]);
    assert(line[1] == state[1]);
    assert(line[2] == state[2]);
    lemma_three_bytes(line);
    assert(line.skip(3) =~= rest);
    let none = Seq::<char>::empty();
    law_trimming_drops_the_spaces_around(none, rest, none);
    assert(none + rest + none =~= rest);
}

/// The changed files offered are the paths of the lines that match.
pub proof fn law_changed_files_match(list: Seq<Seq<char>>, query: Seq<char>, fuzzy: bool)
    ensures
        forall|t: Seq<char>| #[trigger]
            changed_paths(list, query, fuzzy).contains(t) <==> t.len() > 0 && is_match(t, query, fuzzy)
                && exists|k: int| 0 <= k < list.len() && changed_path(#[trigger] list[k]) == Some(t),
    decreases list.len(),
{
    if list.len() > 0 {
        let rest = list.drop_last();
        law_changed_files_match(rest, query, fuzzy);
        let earlier = changed_paths(rest, query, fuzzy);
        let out = changed_paths(list, query, fuzzy);
        assert forall|t: Seq<char>| #[trigger] out.contains(t) <==> t.len() > 0 && is_match(
            t,
            query,
            fuzzy,
        ) && exists|k: int| 0 <= k < list.len() && changed_path(#[trigger] list[k]) == Some(t) by {
            if let Some(path) = changed_path(list.last()) {
                lemma_push_contains(earlier, path, t);
            }
            assert(earlier.contains(t) <==> t.len() > 0 && is_match(t, query, fuzzy) && exists|k: int|
                0 <= k < rest.len() && changed_path(#[trigger] rest[k]) == Some(t));
            if exists|k: int| 0 <= k < rest.len() && changed_path(#[trigger] rest[k]) == Some(t) {
                let k = choose|k: int|
                    0 <= k < rest.len() && changed_path(#[trigger] rest[k]) == Some(t);
                assert(changed_path(list[k]) == Some(t));
            }
            if changed_path(list.last()) == Some(t) {
                assert(changed_path(list[list.len() - 1]) == Some(t));
            }
            if exists|k: int| 0 <= k < list.len() && changed_path(#[trigger] list[k]) == Some(t) {
                let k = choose|k: int|
                    0 <= k < list.len() && changed_path(#[trigger] list[k]) == Some(t);
                if k < rest.len() {
                    assert(changed_path(rest[k]) == Some(t));
                }
            }
        }
    }
}

/// A line of the settings that defines an alias gives a row with the alias and, in
/// its description, what it stands for; other lines give none.
pub proof fn law_aliases_are_read(name: Seq<char>, expansion: Seq<char>, line: Seq<char>)
    requires
        name.len() > 0,
        forall|k: int| 0 <= k < name.len() ==> !is_space(#[trigger] name[k]),
        expansion.len() > 0,
        !is_space(expansion[0]),
        !is_space(expansion.last()),
    ensures
        alias_row("alias."@ + name + " "@ + expansion) is Some,
        alias_row("alias."@ + name + " "@ + expansion)->Some_0.name == name,
        alias_row("alias."@ + name + " "@ + expansion)->Some_0.description == "Alias for '"@
            + expansion + "'"@,
        !begins_with(trimmed(line), "alias."@) ==> alias_row(line) is None,
{
    reveal_strlit("alias.");
    reveal_strlit(" ");
    let head = "alias."@;
    let l = head + name + " "@ + expansion;
    let none = Seq::<char>::empty();
    assert(l[0] == 'a');
    assert(l.last() == expansion.last());
    law_trimming_drops_the_spaces_around(none, l, none);
    assert(none + l + none =~= l);
    let rest = name + " "@ + expansion;
    assert(l =~= head + rest);
    law_prefixes(l, head, rest);
    assert(l.skip(6) =~= rest);
    lemma_word_end(name, " "@ + expansion, 0);
    assert(rest =~= name + (" "@ + expansion));
    assert(rest.take(name.len() as int) =~= name);
    assert(rest.skip(name.len() as int + 1) =~= expansion);
    law_trimming_drops_the_spaces_around(none, expansion, none);
    assert(none + expansion + none =~= expansion);
}

proof fn lemma_word_end(word: Seq<char>, rest: Seq<char>, i: int)
    requires
        0 <= i <= word.len(),
        forall|k: int| 0 <= k < word.len() ==> !is_space(#[trigger] word[k]),
        rest.len() > 0,
        is_space(rest[0]),
    ensures
        space_from(word + rest, i) == word.len(),
    decreases word.len() - i,
{
    let s = word + rest;
    if i < word.len() {
        assert(s[i] == word[i]);
        lemma_word_end(word, rest, i + 1);
    } else {
        assert(s[i] == rest[0]);
    }
}

/// The rows of aliases are those of the lines whose alias matches.
pub proof fn law_alias_rows_match(list: Seq<Seq<char>>, query: Seq<char>, fuzzy: bool)
    ensures
        forall|row: SuggestionView| #[trigger]
            alias_rows(list, query, fuzzy).contains(row) <==> is_match(row.name, query, fuzzy)
                && exists|k: int| 0 <= k < list.len() && alias_row(#[trigger] list[k]) == Some(row),
    decreases list.len(),
{
    if list.len() > 0 {
        let rest = list.drop_last();
        law_alias_rows_match(rest, query, fuzzy);
        let earlier = alias_rows(rest, query, fuzzy);
        let out = alias_rows(list, query, fuzzy);
        assert forall|row: SuggestionView| #[trigger] out.contains(row) <==> is_match(
            row.name,
            query,
            fuzzy,
        ) && exists|k: int| 0 <= k < list.len() && alias_row(#[trigger] list[k]) == Some(row) by {
            if let Some(last) = alias_row(list.last()) {
                lemma_push_contains(earlier, last, row);
            }
            assert(earlier.contains(row) <==> is_match(row.name, query, fuzzy) && exists|k: int|
                0 <= k < rest.len() && alias_row(#[trigger] rest[k]) == Some(row));
            if exists|k: int| 0 <= k < rest.len() && alias_row(#[trigger] rest[k]) == Some(row) {
                let k = choose|k: int| 0 <= k < rest.len() && alias_row(#[trigger] rest[k]) == Some(row);
                assert(alias_row(list[k]) == Some(row));
            }
            if alias_row(list.last()) == Some(row) {
                assert(alias_row(list[list.len() - 1]) == Some(row));
            }
            if exists|k: int| 0 <= k < list.len() && alias_row(#[trigger] list[k]) == Some(row) {
                let k = choose|k: int| 0 <= k < list.len() && alias_row(#[trigger] list[k]) == Some(row);
                if k < rest.len() {
                    assert(alias_row(rest[k]) == Some(row));
                }
            }
        }
    }
}

proof fn lemma_value_under(members: Seq<(Seq<char>, JsonView)>, key: Seq<char>, i: int, k: int)
    requires
        0 <= i <= k < members.len(),
        members[k].0 == key,
        forall|j: int| 0 <= j < k ==> (#[trigger] members[j]).0 != key,
    ensures
        crate::json::value_under(members, key, i) == Some(members[k].1),
    decreases k - i,
{
    if i < k {
        assert(members[i].0 != key);
        lemma_value_under(members, key, i + 1, k);
    }
}

/// The member under a key of a manifest, where that is an object.
pub open spec fn holds_section(
    package: JsonView,
    key: Seq<char>,
    inner: Seq<(Seq<char>, JsonView)>,
) -> bool {
    package matches JsonView::Object(members) && exists|k: int|
        {
            &&& 0 <= k < members.len()
            &&& (#[trigger] members[k]).0 == key
            &&& members[k].1 == JsonView::Object(inner)
            &&& forall|j: int| 0 <= j < k ==> (#[trigger] members[j]).0 != key
        }
}

proof fn lemma_section(package: JsonView, key: Seq<char>, inner: Seq<(Seq<char>, JsonView)>)
    requires
        holds_section(package, key, inner),
    ensures
        section(package, key) == Some(inner),
{
    if let JsonView::Object(members) = package {
        let k = choose|k: int|
            {
                &&& 0 <= k < members.len()
                &&& (#[trigger] members[k]).0 == key
                &&& members[k].1 == JsonView::Object(inner)
                &&& forall|j: int| 0 <= j < k ==> (#[trigger] members[j]).0 != key
            };
        lemma_value_under(members, key, 0, k);
    }
}

proof fn lemma_script_pairs(
    members: Seq<(Seq<char>, JsonView)>,
    query: Seq<char>,
    fuzzy: bool,
    k: int,
)
    requires
        0 <= k < members.len(),
        is_match(members[k].0, query, fuzzy),
    ensures
        script_pairs(members, query, fuzzy).contains((members[k].0, text_or_empty(members[k].1))),
        script_pairs(members, query, fuzzy).len() <= members.len(),
    decreases members.len(),
{
    let rest = members.drop_last();
    let earlier = script_pairs(rest, query, fuzzy);
    let out = script_pairs(members, query, fuzzy);
    let pair = (members[k].0, text_or_empty(members[k].1));
    lemma_script_len(rest, query, fuzzy);
    if k < rest.len() {
        assert(rest[k] == members[k]);
        lemma_script_pairs(rest, query, fuzzy, k);
        let i = choose|i: int| 0 <= i < earlier.len() && earlier[i] == pair;
        assert(out[i] == pair);
    } else {
        assert(out.last() == pair);
    }
}

proof fn lemma_script_len(members: Seq<(Seq<char>, JsonView)>, query: Seq<char>, fuzzy: bool)
    ensures
        script_pairs(members, query, fuzzy).len() <= members.len(),
    decreases members.len(),
{
    if members.len() > 0 {
        lemma_script_len(members.drop_last(), query, fuzzy);
    }
}

proof fn lemma_pair_place(list: Seq<(Seq<char>, Seq<char>)>, name: Seq<char>, i: int)
    requires
        0 <= i <= list.len(),
    ensures
        i <= pair_place(list, name, i) <= list.len(),
        forall|j: int| i <= j < pair_place(list, name, i) ==> !before(name, (#[trigger] list[j]).0),
        pair_place(list, name, i) < list.len() ==> before(name, list[pair_place(list, name, i)].0),
    decreases list.len() - i,
{
    if i < list.len() && !before(name, list[i].0) {
        lemma_pair_place(list, name, i + 1);
    }
}

/// Sorting pairs keeps them all and puts none before one whose name comes first.
pub proof fn law_sorted_pairs(list: Seq<(Seq<char>, Seq<char>)>)
    ensures
        sorted_pairs(list).len() == list.len(),
        forall|pair: (Seq<char>, Seq<char>)| #[trigger]
            sorted_pairs(list).contains(pair) <==> list.contains(pair),
        forall|i: int, j: int|
            #![trigger sorted_pairs(list)[i], sorted_pairs(list)[j]]
            0 <= i < j < list.len() ==> !before(sorted_pairs(list)[j].0, sorted_pairs(list)[i].0),
    decreases list.len(),
{
    if list.len() > 0 {
        let rest = list.drop_last();
        law_sorted_pairs(rest);
        let earlier = sorted_pairs(rest);
        let last = list.last();
        let at = pair_place(earlier, last.0, 0);
        lemma_pair_place(earlier, last.0, 0);
        let out = sorted_pairs(list);
        assert forall|pair: (Seq<char>, Seq<char>)| #[trigger] out.contains(pair) <==> list.contains(
            pair,
        ) by {
            assert(list =~= rest.push(last));
            lemma_push_contains(rest, last, pair);
            assert(earlier.contains(pair) <==> rest.contains(pair));
            if earlier.contains(pair) {
                let i = choose|i: int| 0 <= i < earlier.len() && earlier[i] == pair;
                if i < at {
                    assert(out[i] == pair);
                } else {
                    assert(out[i + 1] == pair);
                }
            }
            if pair == last {
                assert(out[at] == pair);
            }
            if out.contains(pair) {
                let i = choose|i: int| 0 <= i < out.len() && out[i] == pair;
                if i < at {
                    assert(earlier[i] == pair);
                } else if i > at {
                    assert(earlier[i - 1] == pair);
                }
            }
        }
        assert forall|i: int, j: int| #![trigger out[i], out[j]] 0 <= i < j < list.len() implies !before(
            out[j].0,
            out[i].0,
        ) by {
            if j == at {
                assert(out[i] == earlier[i]);
            } else if i == at {
                let q = earlier[j - 1];
                assert(out[j] == q);
                crate::text::law_dictionary_order(last.0, earlier[at].0, q.0);
                crate::text::law_dictionary_order(q.0, last.0, earlier[at].0);
                if j - 1 > at {
                    assert(!before(earlier[j - 1].0, earlier[at].0));
                }
            } else {
                let a = if i < at { i } else { i - 1 };
                let b = if j < at { j } else { j - 1 };
                assert(out[i] == earlier[a]);
                assert(out[j] == earlier[b]);
            }
        }
    } else {
        assert forall|pair: (Seq<char>, Seq<char>)| #[trigger]
            sorted_pairs(list).contains(pair) <==> list.contains(pair) by {}
    }
}

/// Every script of a manifest whose name matches has a row with what it runs, in
/// the order of the names, as long as there are not too many.
pub proof fn law_scripts_have_rows(
    package: JsonView,
    inner: Seq<(Seq<char>, JsonView)>,
    query: Seq<char>,
    fuzzy: bool,
    k: int,
)
    requires
        holds_section(package, "scripts"@, inner),
        0 <= k < inner.len() <= 50,
        is_match(inner[k].0, query, fuzzy),
    ensures
        exists|p: int|
            {
                &&& 0 <= p < script_rows(package, query, fuzzy).len()
                &&& (#[trigger] script_rows(package, query, fuzzy)[p]).name == inner[k].0
                &&& inner[k].1 matches JsonView::Text(text) ==> script_rows(
                    package,
                    query,
                    fuzzy,
                )[p].description == text
            },
        forall|p: int, q: int|
            #![trigger script_rows(package, query, fuzzy)[p], script_rows(package, query, fuzzy)[q]]
            0 <= p < q < script_rows(package, query, fuzzy).len() ==> !before(
                script_rows(package, query, fuzzy)[q].name,
                script_rows(package, query, fuzzy)[p].name,
            ),
{
    lemma_section(package, "scripts"@, inner);
    lemma_script_pairs(inner, query, fuzzy, k);
    let pairs = script_pairs(inner, query, fuzzy);
    law_sorted_pairs(pairs);
    let all = sorted_pairs(pairs);
    let pair = (inner[k].0, text_or_empty(inner[k].1));
    assert(all.contains(pair));
    let p = choose|p: int| 0 <= p < all.len() && all[p] == pair;
    let out = script_rows(package, query, fuzzy);
    assert(out[p].name == inner[k].0);
    assert forall|p: int, q: int| #![trigger out[p], out[q]] 0 <= p < q < out.len() implies !before(
        out[q].name,
        out[p].name,
    ) by {
        assert(out[p].name == all[p].0);
        assert(out[q].name == all[q].0);
    }
}

/// Every dependency of a manifest, of any kind, whose name matches has a row, as
/// long as there are not too many.
pub proof fn law_dependencies_have_rows(
    package: JsonView,
    key: Seq<char>,
    inner: Seq<(Seq<char>, JsonView)>,
    query: Seq<char>,
    fuzzy: bool,
    k: int,
)
    requires
        key == "dependencies"@ || key == "devDependencies"@ || key == "optionalDependencies"@,
        holds_section(package, key, inner),
        0 <= k < inner.len(),
        section_names(package, "dependencies"@).len() + section_names(
            package,
            "devDependencies"@,
        ).len() + section_names(package, "optionalDependencies"@).len() <= 50,
        is_match(inner[k].0, query, fuzzy),
    ensures
        exists|p: int|
            0 <= p < dependency_rows(package, query, fuzzy).len() && (#[trigger] dependency_rows(
                package,
                query,
                fuzzy,
            )[p]).name == inner[k].0,
{
    lemma_section(package, key, inner);
    let a = section_names(package, "dependencies"@);
    let b = section_names(package, "devDependencies"@);
    let c = section_names(package, "optionalDependencies"@);
    let names = a + b + c;
    let own = section_names(package, key);
    let name = inner[k].0;
    assert(own[k] == name);
    assert(names.contains(name)) by {
        if key == "dependencies"@ {
            assert(names[k] == name);
        } else if key == "devDependencies"@ {
            assert(names[a.len() + k] == name);
        } else {
            assert(names[a.len() + b.len() + k] == name);
        }
    }
    law_sorted_set(names);
    let all = sorted_set(names);
    assert(all.contains(name));
    law_matching_keeps_what_matches(all, Seq::empty(), query, fuzzy);
    let kept = matching(all, query, fuzzy);
    assert(kept.contains(name));
    lemma_sorted_len(names);
    lemma_matching_len(all, query, fuzzy);
    let p = choose|p: int| 0 <= p < kept.len() && kept[p] == name;
    assert(dependency_rows(package, query, fuzzy)[p].name == name);
}

/// A manifest is looked for in a directory and in those above it, nearest first.
pub proof fn law_manifests_are_looked_for_above(dir: Seq<char>, name: Seq<char>, limit: nat)
    requires
        limit > 0,
    ensures
        paths_above(dir, name, limit).len() > 0,
        paths_above(dir, name, limit)[0] == path_joined(dir, name),
        paths_above(dir, name, limit).len() <= limit,
        parent_of(dir) is None ==> paths_above(dir, name, limit).len() == 1,
        parent_of(dir) matches Some(parent) ==> limit > 1 ==> paths_above(dir, name, limit).skip(1)
            == paths_above(parent, name, (limit - 1) as nat),
    decreases limit,
{
    let out = paths_above(dir, name, limit);
    if let Some(parent) = parent_of(dir) {
        let rest = paths_above(parent, name, (limit - 1) as nat);
        assert(out.skip(1) =~= rest);
        if limit > 1 {
            law_manifests_are_looked_for_above(parent, name, (limit - 1) as nat);
        }
    }
}

/// A line that names a directory of a repository gives the directory, below the
/// parent where it is relative.
pub proof fn law_repository_directories_are_read(parent: Seq<char>, path: Seq<char>)
    requires
        path.len() > 0,
        !is_space(path[0]),
        !is_space(path.last()),
    ensures
        worktree_dirs(seq!["gitdir: "@ + path], parent, 0) == seq![path_joined(parent, path)],
{
    reveal_strlit("gitdir:");
    reveal_strlit("gitdir: ");
    let none = Seq::<char>::empty();
    let line = "gitdir: "@ + path;
    assert(line[0] == 'g');
    assert(line.last() == path.last());
    law_trimming_drops_the_spaces_around(none, line, none);
    assert(none + line + none =~= line);
    let gap = seq![' '];
    assert("gitdir: "@ =~= "gitdir:"@ + gap);
    assert(line =~= "gitdir:"@ + (gap + path));
    law_prefixes(line, "gitdir:"@, gap + path);
    assert(line.skip(7) =~= gap + path);
    law_trimming_drops_the_spaces_around(gap, path, none);
    assert(gap + path + none =~= gap + path);
    let list = seq![line];
    assert(worktree_dirs(list, parent, 1) =~= Seq::<Seq<char>>::empty());
    assert(worktree_dirs(list, parent, 0) =~= seq![path_joined(parent, path)]);
}

} // verus!
