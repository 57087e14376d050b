//! Laws of typed paths: variables and home directories, the directory that is
//! listed, and the keys of files.
use vstd::prelude::*;

use super::files::{is_ordinary, law_matching_entries_have_rows};
use super::text::{law_index_is_the_first, law_suffixes};
use crate::filegen::expand::{
    behind_slashes, dir_part, law_plain_paths_stay, name_end, path_expanded, prefix_parts,
    tilde_expanded, value_of, variables_expanded, Places,
};
use crate::filegen::filter::{admits, regex_allows, FilterView};
use crate::filegen::list::{
    listed_parts, regex_answers, rows_for_path, shown_name, whole_prefix, DirEntry, Listing,
};
use crate::index::{file_key, mapped_files};
use crate::paths::{last_part, parent_of, part_start, solid_end};
use crate::query::lowercase;
use crate::rank::source::base_at;
use crate::text::{
    begins_with, find_from, finishes_with, index_from, matches_at, opt_text, replaced_from,
};

verus! {

proof fn lemma_index_shift(p: Seq<char>, s: Seq<char>, c: char, i: int)
    requires
        0 <= i <= s.len(),
    ensures
        index_from(p + s, c, p.len() + i) == p.len() + index_from(s, c, i),
        i <= index_from(s, c, i) <= s.len(),
    decreases s.len() - i,
{
    if i < s.len() {
        assert((p + s)[p.len() + i] == s[i]);
        if s[i] != c {
            lemma_index_shift(p, s, c, i + 1);
        }
    }
}

proof fn lemma_name_shift(p: Seq<char>, s: Seq<char>, i: int)
    requires
        0 <= i <= s.len(),
    ensures
        name_end(p + s, p.len() + i) == p.len() + name_end(s, i),
        i <= name_end(s, i) <= s.len(),
    decreases s.len() - i,
{
    if i < s.len() {
        assert((p + s)[p.len() + i] == s[i]);
        lemma_name_shift(p, s, i + 1);
    }
}

/// Variables in a tail are expanded as they are where the tail stands alone.
proof fn lemma_variables_shift(
    p: Seq<char>,
    s: Seq<char>,
    i: int,
    env: Seq<(String, String)>,
    process: Seq<(String, String)>,
)
    requires
        0 <= i <= s.len(),
    ensures
        variables_expanded(p + s, p.len() + i, env, process) == variables_expanded(
            s,
            i,
            env,
            process,
        ),
    decreases s.len() - i,
{
    let w = p + s;
    let n = p.len() as int;
    if i < s.len() {
        assert(w[n + i] == s[i]);
        if i + 1 < s.len() {
            assert(w[n + i + 1] == s[i + 1]);
            lemma_name_shift(p, s, i + 1);
            let end = name_end(s, i + 1);
            if i + 2 <= s.len() {
                lemma_index_shift(p, s, '}', i + 2);
                let close = index_from(s, '}', i + 2);
                assert(w.subrange(n + i + 2, n + close) =~= s.subrange(i + 2, close));
                if close < s.len() {
                    assert(w.subrange(n + i, n + close + 1) =~= s.subrange(i, close + 1));
                    lemma_variables_shift(p, s, close + 1, env, process);
                }
            }
            assert(w.subrange(n + i + 1, n + end) =~= s.subrange(i + 1, end));
            assert(w.subrange(n + i, n + end) =~= s.subrange(i, end));
            lemma_variables_shift(p, s, end, env, process);
        }
        lemma_variables_shift(p, s, i + 1, env, process);
    }
}

proof fn lemma_before_variable(
    a: Seq<char>,
    rest: Seq<char>,
    i: int,
    env: Seq<(String, String)>,
    process: Seq<(String, String)>,
)
    requires
        0 <= i <= a.len(),
        forall|k: int| 0 <= k < a.len() ==> #[trigger] a[k] != '$',
    ensures
        variables_expanded(a + rest, i, env, process) == a.skip(i) + variables_expanded(
            rest,
            0,
            env,
            process,
        ),
    decreases a.len() - i,
{
    let s = a + rest;
    if i < a.len() {
        assert(s[i] == a[i]);
        lemma_before_variable(a, rest, i + 1, env, process);
        assert(a.skip(i) =~= seq![a[i]] + a.skip(i + 1));
        assert(variables_expanded(s, i, env, process) =~= a.skip(i) + variables_expanded(
            rest,
            0,
            env,
            process,
        ));
    } else {
        lemma_variables_shift(a, rest, 0, env, process);
        assert(a.skip(i) =~= Seq::empty());
        assert(a.skip(i) + variables_expanded(rest, 0, env, process) =~= variables_expanded(
            rest,
            0,
            env,
            process,
        ));
    }
}

/// A name of a variable.
pub open spec fn is_variable_name(name: Seq<char>) -> bool {
    name.len() > 0 && forall|k: int|
        0 <= k < name.len() ==> crate::filegen::expand::is_name_char(#[trigger] name[k])
}

proof fn lemma_name_whole(name: Seq<char>, rest: Seq<char>, i: int)
    requires
        is_variable_name(name),
        0 <= i <= name.len(),
        rest.len() == 0 || !crate::filegen::expand::is_name_char(rest[0]),
    ensures
        name_end(name + rest, i) == name.len(),
    decreases name.len() - i,
{
    let s = name + rest;
    if i < name.len() {
        assert(s[i] == name[i]);
        lemma_name_whole(name, rest, i + 1);
    } else if rest.len() > 0 {
        assert(s[i] == rest[0]);
    }
}

/// A variable stands for its value, between what stands before it and what stands
/// behind it; one without a value stays as it was typed.
pub proof fn law_variables_are_replaced(
    a: Seq<char>,
    name: Seq<char>,
    b: Seq<char>,
    env: Seq<(String, String)>,
    process: Seq<(String, String)>,
)
    requires
        forall|k: int| 0 <= k < a.len() ==> #[trigger] a[k] != '$',
        is_variable_name(name),
        b.len() == 0 || !crate::filegen::expand::is_name_char(b[0]),
    ensures
        variables_expanded(a + "$"@ + name + b, 0, env, process) == a + (match value_of(
            name,
            env,
            process,
        ) {
            Some(value) => value,
            None => "$"@ + name,
        }) + variables_expanded(b, 0, env, process),
{
    reveal_strlit("$");
    let rest = "$"@ + name + b;
    let s = a + "$"@ + name + b;
    assert(s =~= a + rest);
    lemma_before_variable(a, rest, 0, env, process);
    assert(a.skip(0) =~= a);
    assert(rest[0] == '$');
    assert(rest[1] == name[0]);
    assert(crate::filegen::expand::is_name_char(name[0]));
    let tail = name + b;
    assert(rest =~= "$"@ + tail);
    lemma_name_shift("$"@, tail, 0);
    lemma_name_whole(name, b, 0);
    let end = 1 + name.len() as int;
    assert(name_end(rest, 1) == end);
    assert(rest.subrange(1, end) =~= name);
    assert(rest.subrange(0, end) =~= "$"@ + name);
    let front = "$"@ + name;
    assert(rest =~= front + b);
    lemma_variables_shift(front, b, 0, env, process);
    let value = match value_of(name, env, process) {
        Some(value) => value,
        None => "$"@ + name,
    };
    assert(variables_expanded(rest, 0, env, process) =~= value + variables_expanded(
        b,
        0,
        env,
        process,
    ));
    assert(a + value + variables_expanded(b, 0, env, process) =~= a + (value + variables_expanded(
        b,
        0,
        env,
        process,
    )));
}

proof fn lemma_no_fallback(name: Seq<char>, i: int)
    requires
        0 <= i,
        is_variable_name(name),
    ensures
        find_from(name, ":-"@, i) is None,
    decreases name.len() - i + 1,
{
    reveal_strlit(":-");
    if i + 2 <= name.len() {
        if matches_at(name, ":-"@, i) {
            assert(name.subrange(i, i + 2)[0] == name[i]);
            assert(crate::filegen::expand::is_name_char(name[i]));
        }
        lemma_no_fallback(name, i + 1);
    }
}

/// A variable in braces stands for its value too.
pub proof fn law_braced_variables_are_replaced(
    a: Seq<char>,
    name: Seq<char>,
    b: Seq<char>,
    env: Seq<(String, String)>,
    process: Seq<(String, String)>,
)
    requires
        forall|k: int| 0 <= k < a.len() ==> #[trigger] a[k] != '$',
        is_variable_name(name),
        value_of(name, env, process) is Some,
    ensures
        variables_expanded(a + "${"@ + name + "}"@ + b, 0, env, process) == a + value_of(
            name,
            env,
            process,
        )->Some_0 + variables_expanded(b, 0, env, process),
{
    reveal_strlit("${");
    reveal_strlit("}");
    let rest = "${"@ + name + "}"@ + b;
    let s = a + "${"@ + name + "}"@ + b;
    assert(s =~= a + rest);
    lemma_before_variable(a, rest, 0, env, process);
    assert(a.skip(0) =~= a);
    let n = name.len() as int;
    assert(rest[0] == '$');
    assert(rest[1] == '{');
    assert(rest[n + 2] == '}');
    law_index_is_the_first(rest, '}', 2);
    assert forall|k: int| 2 <= k < n + 2 implies rest[k] != '}' by {
        assert(rest[k] == name[k - 2]);
        assert(crate::filegen::expand::is_name_char(name[k - 2]));
    }
    assert(index_from(rest, '}', 2) == n + 2);
    assert(rest.subrange(2, n + 2) =~= name);
    lemma_no_fallback(name, 0);
    let none = Seq::<char>::empty();
    lemma_name_whole(name, none, 0);
    assert(name + none =~= name);
    let front = "${"@ + name + "}"@;
    assert(rest =~= front + b);
    lemma_variables_shift(front, b, 0, env, process);
    let value = value_of(name, env, process)->Some_0;
    assert(variables_expanded(rest, 0, env, process) =~= value + variables_expanded(
        b,
        0,
        env,
        process,
    ));
    assert(a + value + variables_expanded(b, 0, env, process) =~= a + (value + variables_expanded(
        b,
        0,
        env,
        process,
    )));
}

/// A tilde stands for the home directory: what follows its slash is found there.
pub proof fn law_tildes_stand_for_home(
    rest: Seq<char>,
    home: Seq<char>,
    env: Seq<(String, String)>,
    places: Places,
)
    requires
        value_of("HOME"@, env, places.variables@) == Some(home) || (value_of(
            "HOME"@,
            env,
            places.variables@,
        ) is None && opt_text(places.home) == Some(home)),
        home.len() > 0,
        home.last() != '/',
        rest.len() == 0 || rest[0] != '/',
    ensures
        tilde_expanded("~/"@ + rest, env, places) == home + "/"@ + rest,
        tilde_expanded("~"@, env, places) == home + "/"@,
{
    reveal_strlit("~/");
    reveal_strlit("~");
    reveal_strlit("/");
    let path = "~/"@ + rest;
    assert(path[0] == '~');
    assert(path[1] == '/');
    assert(index_from(path, '/', 1) == 1);
    assert(behind_slashes(path, 2) == 2) by {
        if rest.len() > 0 {
            assert(path[2] == rest[0]);
        }
    }
    assert(behind_slashes(path, 1) == 2);
    assert(path.skip(2) =~= rest);
    assert(home.push('/') + rest =~= home + "/"@ + rest);
    assert(home.push('/') =~= home + "/"@);
    let bare = "~"@;
    assert(index_from(bare, '/', 1) == 1);
    assert(behind_slashes(bare, 1) == 1);
    assert(bare.skip(1).len() == 0);
}

pub proof fn lemma_base(d: Seq<char>, q: Seq<char>, i: int)
    requires
        0 <= i <= q.len(),
        forall|k: int| 0 <= k < q.len() ==> #[trigger] q[k] != '/',
    ensures
        base_at(d + "/"@ + q, d.len() + 1 + i) == d.len() + 1,
    decreases i,
{
    reveal_strlit("/");
    let s = d + "/"@ + q;
    if i > 0 {
        assert(s[d.len() + 1 + i - 1] == q[i - 1]);
        lemma_base(d, q, i - 1);
    } else {
        assert(s[d.len() as int] == '/');
    }
}

/// What is listed for a typed path is the directory before its last slash, under
/// the working directory where it is relative, and what is looked for is the rest.
pub proof fn law_typed_paths_are_parted(d: Seq<char>, q: Seq<char>, cwd: Seq<char>)
    requires
        forall|k: int| 0 <= k < q.len() ==> #[trigger] q[k] != '/',
        cwd.len() > 0,
        cwd.last() != '/',
    ensures
        dir_part(d + "/"@ + q) == d + "/"@,
        prefix_parts(d + "/"@ + q, cwd).1 == q,
        prefix_parts(d + "/"@ + q, cwd).0 == if d.len() == 0 || d[0] == '/' {
            d + "/"@
        } else {
            cwd + "/"@ + d + "/"@
        },
        prefix_parts(q, cwd) == (cwd, q),
        dir_part(q).len() == 0,
{
    reveal_strlit("/");
    let s = d + "/"@ + q;
    lemma_base(d, q, q.len() as int);
    let at = d.len() as int + 1;
    assert(s.take(at) =~= d + "/"@);
    assert(s.skip(at) =~= q);
    if d.len() > 0 {
        assert((d + "/"@)[0] == d[0]);
    } else {
        assert((d + "/"@)[0] == '/');
    }
    assert(cwd.push('/') + (d + "/"@) =~= cwd + "/"@ + d + "/"@);
    lemma_no_slash(q, q.len() as int);
    assert(q.take(0) =~= Seq::empty());
}

pub proof fn lemma_no_slash(q: Seq<char>, i: int)
    requires
        0 <= i <= q.len(),
        forall|k: int| 0 <= k < q.len() ==> #[trigger] q[k] != '/',
    ensures
        base_at(q, i) == 0,
    decreases i,
{
    if i > 0 {
        assert(q[i - 1] != '/');
        lemma_no_slash(q, i - 1);
    }
}

/// While a path is typed, every ordinary entry of its directory that the filter
/// admits and that begins with the rest has a row: the typed directory and the
/// entry's name.
pub proof fn law_typed_paths_are_completed(
    d: Seq<char>,
    q: Seq<char>,
    cwd: Seq<char>,
    fuzzy: bool,
    filter: FilterView,
    places: Places,
    entries: Seq<DirEntry>,
    k: int,
)
    requires
        forall|i: int| 0 <= i < d.len() ==> #[trigger] d[i] != '$',
        d.len() > 0,
        d[0] != '~',
        forall|i: int| 0 <= i < q.len() ==> #[trigger] q[i] != '/' && q[i] != '$',
        cwd.len() > 0,
        cwd.last() != '/',
        filter.root_directory is None,
        0 <= k < entries.len() <= 49,
        is_ordinary(filter, entries[k]),
        filter.extensions.len() == 0 && filter.equals.len() == 0 && filter.matches is None,
        begins_with(
            lowercase(shown_name(entries[k].name@, entries[k].is_dir)),
            lowercase(q),
        ),
    ensures
        ({
            let out = rows_for_path(d + "/"@ + q, cwd, fuzzy, filter, places, Some(entries));
            exists|p: int|
                0 <= p < out.len() && (#[trigger] out[p]).name == d + "/"@ + shown_name(
                    entries[k].name@,
                    entries[k].is_dir,
                )
        }),
{
    reveal_strlit("/");
    reveal_strlit("~");
    let prefix = d + "/"@ + q;
    assert(prefix[0] == d[0]);
    assert(prefix != "~"@);
    assert(!prefix.contains('$')) by {
        if prefix.contains('$') {
            let i = choose|i: int| 0 <= i < prefix.len() && prefix[i] == '$';
            if i < d.len() {
                assert(prefix[i] == d[i]);
            } else if i > d.len() {
                assert(prefix[i] == q[i - d.len() - 1]);
            }
        }
    }
    law_plain_paths_stay(prefix, filter.environment, places);
    law_typed_paths_are_parted(d, q, cwd);
    law_matching_entries_have_rows(
        d + "/"@,
        Listing { query: q, fuzzy },
        filter,
        entries,
        regex_answers(filter, entries),
        regex_allows(filter, "../"@),
        k,
    );
    assert(whole_prefix(prefix) == prefix);
    assert(path_expanded(prefix, filter.environment, places) == prefix);
    let parts = listed_parts(prefix, cwd, filter, places);
    assert(parts is Some && parts->Some_0.1 == q);
    let out = rows_for_path(prefix, cwd, fuzzy, filter, places, Some(entries));
    let rows = crate::filegen::list::directory_rows(
        d + "/"@,
        Listing { query: q, fuzzy },
        filter,
        entries,
        regex_answers(filter, entries),
        regex_allows(filter, "../"@),
    );
    assert(out == rows);
    let shown = shown_name(entries[k].name@, entries[k].is_dir);
    let p = choose|p: int| 0 <= p < rows.len() && (#[trigger] rows[p]).name == (d + "/"@) + shown;
    assert(out[p].name == d + "/"@ + shown);
}

/// The directory above a path is the path without its last part.
pub proof fn law_parents_are_above(dir: Seq<char>, name: Seq<char>)
    requires
        dir.len() >= 2,
        dir.last() != '/',
        dir.last() != '.',
        name.len() > 0,
        name.last() != '.',
        forall|k: int| 0 <= k < name.len() ==> #[trigger] name[k] != '/',
    ensures
        parent_of(dir + "/"@ + name) == Some(dir),
        last_part(dir + "/"@ + name) == name,
{
    reveal_strlit("/");
    let path = dir + "/"@ + name;
    let n = dir.len() as int;
    let len = path.len() as int;
    assert(path[0] == dir[0]);
    assert(path[1] == dir[1]);
    assert(path[len - 1] == name.last());
    assert(path[n - 1] == dir.last());
    assert(path[n] == '/');
    assert(name.last() != '/');
    assert(solid_end(path, len) == len);
    lemma_part_start(path, n + 1, len);
    assert(solid_end(path, n) == n);
    assert(solid_end(path, n + 1) == n);
    assert(path.take(n) =~= dir);
    assert(path.subrange(n + 1, len) =~= name);
}

proof fn lemma_part_start(path: Seq<char>, n: int, to: int)
    requires
        2 <= n <= to <= path.len(),
        path[n - 1] == '/',
        forall|k: int| n <= k < to ==> #[trigger] path[k] != '/',
    ensures
        part_start(path, to) == n,
    decreases to - n,
{
    if n < to {
        assert(path[to - 1] != '/');
        lemma_part_start(path, n, to - 1);
    }
}

proof fn lemma_unreplaced(s: Seq<char>, with: Seq<char>, i: int)
    requires
        0 <= i <= s.len(),
        forall|k: int| 0 <= k < s.len() ==> #[trigger] s[k] != '\\',
    ensures
        replaced_from(s, "\\"@, with, i) == s.skip(i),
    decreases s.len() - i,
{
    reveal_strlit("\\");
    if i < s.len() {
        if matches_at(s, "\\"@, i) {
            assert(s.subrange(i, i + 1)[0] == s[i]);
        }
        lemma_unreplaced(s, with, i + 1);
        assert(s.skip(i) =~= seq![s[i]] + s.skip(i + 1));
    } else {
        assert(s.skip(i) =~= Seq::empty());
    }
}

/// A file of a command is found under its path without the extension; other files
/// have no key.
pub proof fn law_files_are_keyed_by_their_path(d: Seq<char>, name: Seq<char>, other: Seq<char>)
    requires
        name.len() > 0,
        name != "index"@,
        forall|k: int| 0 <= k < name.len() ==> #[trigger] name[k] != '/' && name[k] != '\\',
        forall|k: int| 0 <= k < d.len() ==> #[trigger] d[k] != '\\',
    ensures
        file_key(name + ".json"@) == Some(name),
        file_key(d + "/"@ + name + ".json"@) == Some(d + "/"@ + name),
        !finishes_with(other, ".json"@) ==> file_key(other) is None,
{
    reveal_strlit(".json");
    reveal_strlit("index");
    reveal_strlit("index.json");
    reveal_strlit("/");
    let q = name + ".json"@;
    assert forall|k: int| 0 <= k < q.len() implies #[trigger] q[k] != '/' by {
        if k < name.len() {
            assert(q[k] == name[k]);
        } else {
            assert(q[k] == ".json"@[k - name.len()]);
        }
    }
    lemma_no_slash(q, q.len() as int);
    assert(q.skip(0) =~= q);
    law_suffixes(q, ".json"@, name);
    assert(q.take(q.len() - 5) =~= name);
    assert(name + ".json"@ != "index.json"@) by {
        if name + ".json"@ == "index.json"@ {
            assert(name =~= "index.json"@.take(5));
            assert("index.json"@.take(5) =~= "index"@);
        }
    }
    assert(q.len() != ".json"@.len());
    lemma_unreplaced(name, "/"@, 0);
    assert(name.skip(0) =~= name);
    let whole = d + "/"@ + name + ".json"@;
    assert(whole =~= d + "/"@ + q);
    lemma_base(d, q, q.len() as int);
    assert(whole.skip(d.len() as int + 1) =~= q);
    let stem = d + "/"@ + name;
    assert(whole.take(whole.len() - 5) =~= stem);
    assert forall|k: int| 0 <= k < stem.len() implies #[trigger] stem[k] != '\\' by {
        if k < d.len() {
            assert(stem[k] == d[k]);
        } else if k > d.len() {
            assert(stem[k] == name[k - d.len() - 1]);
        }
    }
    lemma_unreplaced(stem, "/"@, 0);
    assert(stem.skip(0) =~= stem);
    assert(stem != "index"@) by {
        if stem == "index"@ {
            assert(stem[d.len() as int] == '/');
            assert("index"@[d.len() as int] == '/');
        }
    }
    if !finishes_with(other, ".json"@) {
        lemma_tail_ends(other);
    }
}

proof fn lemma_base_inside(s: Seq<char>, i: int)
    requires
        0 <= i <= s.len(),
    ensures
        0 <= base_at(s, i) <= i,
    decreases i,
{
    if i > 0 && s[i - 1] != '/' {
        lemma_base_inside(s, i - 1);
    }
}

proof fn lemma_tail_ends(s: Seq<char>)
    requires
        !finishes_with(s, ".json"@),
    ensures
        !finishes_with(s.skip(base_at(s, s.len() as int)), ".json"@),
{
    let at = base_at(s, s.len() as int);
    lemma_base_inside(s, s.len() as int);
    let tail = s.skip(at);
    let n = ".json"@.len();
    if finishes_with(tail, ".json"@) {
        assert(tail.subrange(tail.len() - n, tail.len() as int) =~= s.subrange(
            s.len() - n,
            s.len() as int,
        ));
    }
}

/// The files of a command index are its members with a name and a safe path, in
/// their order.
pub proof fn law_safe_members_are_mapped(members: Seq<(Seq<char>, Seq<char>)>)
    ensures
        forall|pair: (Seq<char>, Seq<char>)| #[trigger]
            mapped_files(members).contains(pair) <==> members.contains(pair) && pair.0.len() > 0
                && crate::references::is_safe(pair.1),
    decreases members.len(),
{
    if members.len() > 0 {
        let rest = members.drop_last();
        law_safe_members_are_mapped(rest);
        let last = members.last();
        assert(members =~= rest.push(last));
        assert forall|pair: (Seq<char>, Seq<char>)| #[trigger]
            mapped_files(members).contains(pair) <==> members.contains(pair) && pair.0.len() > 0
                && crate::references::is_safe(pair.1) by {
            super::shape::lemma_push_contains(rest, last, pair);
            super::shape::lemma_push_contains(mapped_files(rest), last, pair);
            assert(mapped_files(rest).contains(pair) <==> rest.contains(pair) && pair.0.len() > 0
                && crate::references::is_safe(pair.1));
        }
    }
}

/// A variable in braces with a fallback stands for the fallback where it has no
/// value, and for its value where it has one.
pub proof fn law_fallbacks_stand_in(
    name: Seq<char>,
    fallback: Seq<char>,
    b: Seq<char>,
    env: Seq<(String, String)>,
    process: Seq<(String, String)>,
)
    requires
        is_variable_name(name),
        forall|k: int| 0 <= k < fallback.len() ==> #[trigger] fallback[k] != '}',
    ensures
        variables_expanded("${"@ + name + ":-"@ + fallback + "}"@ + b, 0, env, process) == (
        match value_of(name, env, process) {
            Some(value) => value,
            None => fallback,
        }) + variables_expanded(b, 0, env, process),
{
    reveal_strlit("${");
    reveal_strlit(":-");
    reveal_strlit("}");
    let s = "${"@ + name + ":-"@ + fallback + "}"@ + b;
    let body = name + ":-"@ + fallback;
    let n = body.len() as int;
    assert(s[0] == '$');
    assert(s[1] == '{');
    assert(s[n + 2] == '}');
    law_index_is_the_first(s, '}', 2);
    assert forall|k: int| 2 <= k < n + 2 implies s[k] != '}' by {
        assert(s[k] == body[k - 2]);
        if k - 2 < name.len() {
            assert(body[k - 2] == name[k - 2]);
            assert(crate::filegen::expand::is_name_char(name[k - 2]));
        } else if k - 2 >= name.len() + 2 {
            assert(body[k - 2] == fallback[k - 2 - name.len() - 2]);
        }
    }
    assert(index_from(s, '}', 2) == n + 2);
    assert(s.subrange(2, n + 2) =~= body);
    lemma_first_dash(name, fallback, 0);
    let m = name.len() as int;
    assert(body.take(m) =~= name);
    assert(body.skip(m + 2) =~= fallback);
    let none = Seq::<char>::empty();
    lemma_name_whole(name, none, 0);
    assert(name + none =~= name);
    let front = "${"@ + body + "}"@;
    assert(s =~= front + b);
    lemma_variables_shift(front, b, 0, env, process);
}

proof fn lemma_first_dash(name: Seq<char>, fallback: Seq<char>, i: int)
    requires
        is_variable_name(name),
        0 <= i <= name.len(),
    ensures
        find_from(name + ":-"@ + fallback, ":-"@, i) == Some(name.len() as int),
    decreases name.len() - i,
{
    reveal_strlit(":-");
    let body = name + ":-"@ + fallback;
    if i < name.len() {
        if matches_at(body, ":-"@, i) {
            assert(body.subrange(i, i + 2)[0] == body[i]);
            assert(body[i] == name[i]);
            assert(crate::filegen::expand::is_name_char(name[i]));
        }
        lemma_first_dash(name, fallback, i + 1);
    } else {
        assert(body.subrange(i, i + 2) =~= ":-"@);
    }
}

} // verus!
