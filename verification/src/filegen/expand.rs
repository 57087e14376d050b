//! Expansion of `~` and of variables in a typed path. No shell takes part: the
//! values of variables and the home directories of accounts are handed in.
use vstd::prelude::*;

use crate::rank::source::base_at;
use crate::text::{
    chars_of, concat, find, find_from, index_from, index_of, lemma_find_from_bounds,
    lemma_index_from_bounds, opt_text, same, text_range,
};

verus! {

/// What a path can refer to.
#[derive(Debug, Default)]
pub struct Places {
    /// The variables of this process.
    pub variables: Vec<(String, String)>,
    /// The home directory of this process.
    pub home: Option<String>,
    /// The home directory of the account that the path names, which
    /// [`tilde_user`] gives.
    pub user_home: Option<String>,
}

// ---------------------------------------------------------------------------
// Variables
// ---------------------------------------------------------------------------
/// The value of a variable in a list, from place `i` on.
pub open spec fn listed_value(list: Seq<(String, String)>, name: Seq<char>, i: int) -> Option<
    Seq<char>,
>
    decreases list.len() - i,
{
    if i < 0 || i >= list.len() {
        None
    } else if list[i].0@ == name {
        Some(list[i].1@)
    } else {
        listed_value(list, name, i + 1)
    }
}

/// The value of a variable: that of the shell, then that of the process.
pub open spec fn value_of(
    name: Seq<char>,
    env: Seq<(String, String)>,
    process: Seq<(String, String)>,
) -> Option<Seq<char>> {
    match listed_value(env, name, 0) {
        Some(value) => Some(value),
        None => listed_value(process, name, 0),
    }
}

fn find_value(list: &[(String, String)], name: &str) -> (value: Option<String>)
    ensures
        opt_text(value) == listed_value(list@, name@, 0),
{
    let mut i: usize = 0;
    while i < list.len()
        invariant
            i <= list@.len(),
            listed_value(list@, name@, 0) == listed_value(list@, name@, i as int),
        decreases list@.len() - i,
    {
        if same(&list[i].0, name) {
            return Some(list[i].1.clone());
        }
        i += 1;
    }
    None
}

/// Computes [`value_of`].
pub fn environment_value(
    name: &str,
    env: &[(String, String)],
    process: &[(String, String)],
) -> (value: Option<String>)
    ensures
        opt_text(value) == value_of(name@, env@, process@),
{
    match find_value(env, name) {
        Some(value) => Some(value),
        None => find_value(process, name),
    }
}

/// Whether a character can stand in the name of a variable.
pub open spec fn is_name_char(c: char) -> bool {
    ('a' <= c && c <= 'z') || ('A' <= c && c <= 'Z') || ('0' <= c && c <= '9') || c == '_'
}

/// Computes [`is_name_char`].
pub fn is_environment_name_character(c: char) -> (yes: bool)
    ensures
        yes == is_name_char(c),
{
    ('a' <= c && c <= 'z') || ('A' <= c && c <= 'Z') || ('0' <= c && c <= '9') || c == '_'
}

/// Where the name that starts at `i` ends.
pub open spec fn name_end(s: Seq<char>, i: int) -> int
    decreases s.len() - i,
{
    if 0 <= i < s.len() && is_name_char(s[i]) {
        name_end(s, i + 1)
    } else {
        i
    }
}

proof fn lemma_name_end(s: Seq<char>, i: int)
    requires
        0 <= i <= s.len(),
    ensures
        i <= name_end(s, i) <= s.len(),
    decreases s.len() - i,
{
    if i < s.len() && is_name_char(s[i]) {
        lemma_name_end(s, i + 1);
    }
}

fn find_name_end(s: &[char], from: usize) -> (end: usize)
    requires
        from <= s@.len(),
    ensures
        end == name_end(s@, from as int),
        from <= end <= s@.len(),
{
    let mut end: usize = from;
    while end < s.len() && is_environment_name_character(s[end])
        invariant
            from <= end <= s@.len(),
            name_end(s@, from as int) == name_end(s@, end as int),
        decreases s@.len() - end,
    {
        end += 1;
    }
    end
}

/// What stands between the braces of `${..}`: a name, and the fallback behind
/// `:-` where there is one. Anything else is malformed.
pub open spec fn braced_parts(body: Seq<char>) -> Option<(Seq<char>, Option<Seq<char>>)> {
    let (name, fallback) = match find_from(body, ":-"@, 0) {
        Some(at) => (body.take(at), Some(body.skip(at + 2))),
        None => (body, None),
    };
    if name.len() > 0 && name_end(name, 0) == name.len() {
        Some((name, fallback))
    } else {
        None
    }
}

/// Computes [`braced_parts`].
pub fn parse_braced_variable(body: &str) -> (parts: Option<(String, Option<String>)>)
    ensures
        match parts {
            Some((name, fallback)) => braced_parts(body@) == Some((name@, opt_text(fallback))),
            None => braced_parts(body@) is None,
        },
{
    let s = chars_of(body);
    let n = s.len();
    let mark = chars_of(":-");
    proof {
        reveal_strlit(":-");
        lemma_find_from_bounds(s@, ":-"@, 0);
    }
    let (stop, fallback): (usize, Option<String>) = match find(&s, &mark, 0) {
        Some(at) => {
            proof {
                assert(s@.skip(at + 2) =~= s@.subrange(at + 2, n as int));
            }
            (at, Some(text_range(&s, at + 2, n)))
        },
        None => (n, None),
    };
    let name = text_range(&s, 0, stop);
    proof {
        assert(name@ =~= s@.take(stop as int));
        if stop == n {
            assert(s@.take(n as int) =~= s@);
        }
    }
    let name_chars = chars_of(&name);
    if name_chars.len() > 0 && find_name_end(&name_chars, 0) == name_chars.len() {
        Some((name, fallback))
    } else {
        None
    }
}

/// The value that `${body}` stands for, where it stands for one.
pub open spec fn braced_value(
    body: Seq<char>,
    env: Seq<(String, String)>,
    process: Seq<(String, String)>,
) -> Option<Seq<char>> {
    match braced_parts(body) {
        None => None,
        Some((name, fallback)) => match value_of(name, env, process) {
            Some(value) => Some(value),
            None => fallback,
        },
    }
}

/// A value, or the text that stands for it.
pub open spec fn or_literal(value: Option<Seq<char>>, literal: Seq<char>) -> Seq<char> {
    match value {
        Some(value) => value,
        None => literal,
    }
}

/// `s[i..]` with `$NAME`, `${NAME}` and `${NAME:-fallback}` replaced. Unknown
/// variables and malformed expressions stay as they are.
pub open spec fn variables_expanded(
    s: Seq<char>,
    i: int,
    env: Seq<(String, String)>,
    process: Seq<(String, String)>,
) -> Seq<char>
    decreases s.len() - i,
    via variables_expanded_decreases
{
    if i < 0 || i >= s.len() {
        Seq::empty()
    } else if s[i] == '$' && i + 1 < s.len() && s[i + 1] == '{' && index_from(s, '}', i + 2)
        < s.len() {
        let end = index_from(s, '}', i + 2);
        or_literal(
            braced_value(s.subrange(i + 2, end), env, process),
            s.subrange(i, end + 1),
        ) + variables_expanded(s, end + 1, env, process)
    } else if s[i] == '$' && i + 1 < s.len() && s[i + 1] != '{' && is_name_char(s[i + 1]) {
        let end = name_end(s, i + 1);
        or_literal(value_of(s.subrange(i + 1, end), env, process), s.subrange(i, end))
            + variables_expanded(s, end, env, process)
    } else {
        seq![s[i]] + variables_expanded(s, i + 1, env, process)
    }
}

#[via_fn]
proof fn variables_expanded_decreases(
    s: Seq<char>,
    i: int,
    env: Seq<(String, String)>,
    process: Seq<(String, String)>,
) {
    if 0 <= i && i + 1 < s.len() {
        lemma_name_end(s, i + 1);
        if i + 2 <= s.len() {
            lemma_index_from_bounds(s, '}', i + 2);
        }
    }
}

/// Computes [`variables_expanded`] of a whole path.
pub fn expand_environment_variables(
    path: &str,
    env: &[(String, String)],
    process: &[(String, String)],
) -> (expanded: String)
    ensures
        expanded@ == variables_expanded(path@, 0, env@, process@),
{
    let s = chars_of(path);
    let n = s.len();
    let ghost stated = variables_expanded(s@, 0, env@, process@);
    let mut expanded = String::new();
    let mut i: usize = 0;
    proof {
        assert(expanded@ + stated =~= stated);
    }
    while i < n
        invariant
            n == s@.len(),
            i <= n,
            expanded@ + variables_expanded(s@, i as int, env@, process@) == stated,
        decreases n - i,
    {
        let ghost had = expanded@;
        let ghost rest = variables_expanded(s@, i as int, env@, process@);
        let mut end: usize = i + 1;
        if s[i] == '$' && i + 1 < n && s[i + 1] == '{' {
            let close = index_of(&s, '}', i + 2);
            if close < n {
                let body = text_range(&s, i + 2, close);
                end = close + 1;
                let mut value: Option<String> = None;
                if let Some((name, fallback)) = parse_braced_variable(&body) {
                    value = match environment_value(&name, env, process) {
                        Some(value) => Some(value),
                        None => fallback,
                    };
                }
                match value {
                    Some(value) => {
                        expanded.push_str(&value);
                    },
                    None => {
                        expanded.push_str(&text_range(&s, i, end));
                    },
                }
            } else {
                expanded.push('$');
            }
        } else if s[i] == '$' && i + 1 < n && is_environment_name_character(s[i + 1]) {
            end = find_name_end(&s, i + 1);
            proof {
                lemma_name_end(s@, i + 2);
            }
            let name = text_range(&s, i + 1, end);
            match environment_value(&name, env, process) {
                Some(value) => {
                    expanded.push_str(&value);
                },
                None => {
                    expanded.push_str(&text_range(&s, i, end));
                },
            }
        } else {
            expanded.push(s[i]);
        }
        proof {
            let piece = expanded@.skip(had.len() as int);
            assert(expanded@ =~= had + piece);
            assert(rest =~= piece + variables_expanded(s@, end as int, env@, process@));
            assert(expanded@ + variables_expanded(s@, end as int, env@, process@) =~= had + rest);
        }
        i = end;
    }
    proof {
        assert(expanded@ + variables_expanded(s@, i as int, env@, process@) =~= expanded@);
    }
    expanded
}

// ---------------------------------------------------------------------------
// Paths as text
// ---------------------------------------------------------------------------
/// A path below another; an absolute path replaces it.
pub open spec fn path_joined(base: Seq<char>, rel: Seq<char>) -> Seq<char> {
    if base.len() == 0 || (rel.len() > 0 && rel[0] == '/') {
        rel
    } else if base.last() == '/' {
        base + rel
    } else {
        base.push('/') + rel
    }
}

/// Computes [`path_joined`].
pub fn join_base(base: &str, rel: &str) -> (path: String)
    ensures
        path@ == path_joined(base@, rel@),
{
    let b = chars_of(base);
    let r = chars_of(rel);
    if b.len() == 0 || (r.len() > 0 && r[0] == '/') {
        rel.to_owned()
    } else if b[b.len() - 1] == '/' {
        concat(base, rel)
    } else {
        let mut path = base.to_owned();
        path.push('/');
        path.push_str(rel);
        path
    }
}

// ---------------------------------------------------------------------------
// Home directories
// ---------------------------------------------------------------------------
/// Where the text behind leading slashes begins.
pub open spec fn behind_slashes(s: Seq<char>, i: int) -> int
    decreases s.len() - i,
{
    if 0 <= i < s.len() && s[i] == '/' {
        behind_slashes(s, i + 1)
    } else {
        i
    }
}

/// A home directory with what follows it; the bare directory ends in a slash.
pub open spec fn home_joined(home: Seq<char>, suffix: Seq<char>) -> Seq<char> {
    if suffix.len() > 0 {
        path_joined(home, suffix)
    } else if home.len() > 0 && home.last() == '/' {
        home
    } else {
        home.push('/')
    }
}

/// Computes [`home_joined`].
pub fn join_home_prefix(home: &str, suffix: &str) -> (path: String)
    ensures
        path@ == home_joined(home@, suffix@),
{
    if !suffix.is_empty() {
        return join_base(home, suffix);
    }
    let s = chars_of(home);
    let mut path = home.to_owned();
    if s.len() == 0 || s[s.len() - 1] != '/' {
        path.push('/');
    }
    path
}

/// The account whose home directory a path starts with, other than the user's
/// own.
pub open spec fn named_account(path: Seq<char>) -> Option<Seq<char>> {
    if path.len() > 0 && path[0] == '~' && index_from(path, '/', 1) > 1 {
        Some(path.subrange(1, index_from(path, '/', 1)))
    } else {
        None
    }
}

/// Computes [`named_account`].
pub fn tilde_user(path: &str) -> (name: Option<String>)
    ensures
        opt_text(name) == named_account(path@),
{
    let s = chars_of(path);
    if s.len() == 0 || s[0] != '~' {
        return None;
    }
    let end = index_of(&s, '/', 1);
    if end > 1 {
        Some(text_range(&s, 1, end))
    } else {
        None
    }
}

/// The home directory that a path starting with `~` refers to.
pub open spec fn home_for(path: Seq<char>, env: Seq<(String, String)>, places: Places) -> Option<
    Seq<char>,
> {
    if named_account(path) is Some {
        opt_text(places.user_home)
    } else {
        match value_of("HOME"@, env, places.variables@) {
            Some(home) => Some(home),
            None => opt_text(places.home),
        }
    }
}

/// A path with the leading `~` or `~account` replaced. A path whose home
/// directory is unknown stays as it is.
pub open spec fn tilde_expanded(
    path: Seq<char>,
    env: Seq<(String, String)>,
    places: Places,
) -> Seq<char> {
    if path.len() == 0 || path[0] != '~' {
        path
    } else {
        match home_for(path, env, places) {
            None => path,
            Some(home) => home_joined(
                home,
                path.skip(behind_slashes(path, index_from(path, '/', 1))),
            ),
        }
    }
}

/// Computes [`tilde_expanded`].
pub fn expand_tilde(path: &str, env: &[(String, String)], places: &Places) -> (expanded: String)
    ensures
        expanded@ == tilde_expanded(path@, env@, *places),
{
    let s = chars_of(path);
    let n = s.len();
    if n == 0 || s[0] != '~' {
        return path.to_owned();
    }
    let home: Option<String> = if tilde_user(path).is_some() {
        places.user_home.clone()
    } else {
        match environment_value("HOME", env, &places.variables) {
            Some(home) => Some(home),
            None => places.home.clone(),
        }
    };
    match home {
        None => path.to_owned(),
        Some(home) => {
            let slash = index_of(&s, '/', 1);
            let mut at: usize = slash;
            while at < n && s[at] == '/'
                invariant
                    at <= n,
                    n == s@.len(),
                    behind_slashes(s@, slash as int) == behind_slashes(s@, at as int),
                decreases n - at,
            {
                at += 1;
            }
            let suffix = text_range(&s, at, n);
            proof {
                assert(suffix@ =~= s@.skip(at as int));
            }
            join_home_prefix(&home, &suffix)
        },
    }
}

/// A path with home directories and variables replaced.
pub open spec fn path_expanded(
    path: Seq<char>,
    env: Seq<(String, String)>,
    places: Places,
) -> Seq<char> {
    variables_expanded(tilde_expanded(path, env, places), 0, env, places.variables@)
}

/// Computes [`path_expanded`].
pub fn expand_home_with(path: &str, env: &[(String, String)], places: &Places) -> (expanded: String)
    ensures
        expanded@ == path_expanded(path@, env@, *places),
{
    expand_environment_variables(&expand_tilde(path, env, places), env, &places.variables)
}

/// Expands a path without variables of the shell.
pub fn expand_home(path: &str, places: &Places) -> (expanded: String)
    ensures
        expanded@ == path_expanded(path@, Seq::empty(), *places),
{
    let none: Vec<(String, String)> = Vec::new();
    proof {
        assert(none@ =~= Seq::<(String, String)>::empty());
    }
    expand_home_with(path, &none, places)
}

// ---------------------------------------------------------------------------
// Parts of a prefix
// ---------------------------------------------------------------------------
/// A prefix up to its last slash.
pub open spec fn dir_part(prefix: Seq<char>) -> Seq<char> {
    prefix.take(base_at(prefix, prefix.len() as int))
}

/// Where the part behind the last slash begins.
fn find_base(s: &[char]) -> (at: usize)
    ensures
        at == base_at(s@, s@.len() as int),
        at <= s@.len(),
{
    let n = s.len();
    let mut at: usize = n;
    while at > 0 && s[at - 1] != '/'
        invariant
            at <= n,
            n == s@.len(),
            base_at(s@, n as int) == base_at(s@, at as int),
        decreases at,
    {
        at -= 1;
    }
    at
}

/// Computes [`dir_part`].
pub fn dir_prefix(prefix: &str) -> (dir: String)
    ensures
        dir@ == dir_part(prefix@),
{
    let s = chars_of(prefix);
    let at = find_base(&s);
    proof {
        assert(s@.take(at as int) =~= s@.subrange(0, at as int));
    }
    text_range(&s, 0, at)
}

/// The directory that a prefix lists and the part that its entries match. A
/// relative prefix without a working directory has neither.
pub open spec fn prefix_parts(prefix: Seq<char>, cwd: Seq<char>) -> (Seq<char>, Seq<char>) {
    let at = base_at(prefix, prefix.len() as int);
    let rooted = prefix.len() > 0 && (prefix[0] == '/' || prefix[0] == '~');
    if cwd.len() == 0 && !rooted {
        (Seq::empty(), Seq::empty())
    } else {
        let base = if cwd.len() == 0 {
            "/"@
        } else {
            cwd
        };
        if at == 0 {
            (base, prefix)
        } else {
            (path_joined(base, prefix.take(at)), prefix.skip(at))
        }
    }
}

/// Computes [`prefix_parts`].
pub fn split_prefix(prefix: &str, cwd: &str) -> (parts: (String, String))
    ensures
        (parts.0@, parts.1@) == prefix_parts(prefix@, cwd@),
{
    let s = chars_of(prefix);
    let n = s.len();
    let rooted = n > 0 && (s[0] == '/' || s[0] == '~');
    if cwd.is_empty() && !rooted {
        return (String::new(), String::new());
    }
    let base = if cwd.is_empty() {
        "/".to_owned()
    } else {
        cwd.to_owned()
    };
    let at = find_base(&s);
    if at == 0 {
        (base, prefix.to_owned())
    } else {
        let dir = text_range(&s, 0, at);
        let query = text_range(&s, at, n);
        proof {
            assert(dir@ =~= s@.take(at as int));
            assert(query@ =~= s@.skip(at as int));
        }
        (join_base(&base, &dir), query)
    }
}

// ---------------------------------------------------------------------------
// Laws
// ---------------------------------------------------------------------------
proof fn lemma_no_variables(
    s: Seq<char>,
    i: int,
    env: Seq<(String, String)>,
    process: Seq<(String, String)>,
)
    requires
        0 <= i <= s.len(),
        !s.contains('$'),
    ensures
        variables_expanded(s, i, env, process) == s.skip(i),
    decreases s.len() - i,
{
    if i < s.len() {
        assert(s.contains(s[i]));
        lemma_no_variables(s, i + 1, env, process);
        assert(s.skip(i) =~= seq![s[i]] + s.skip(i + 1));
    } else {
        assert(s.skip(i) =~= Seq::<char>::empty());
    }
}

/// A path without variables and without a leading `~` stays as it is.
pub proof fn law_plain_paths_stay(path: Seq<char>, env: Seq<(String, String)>, places: Places)
    requires
        !path.contains('$'),
        path.len() == 0 || path[0] != '~',
    ensures
        path_expanded(path, env, places) == path,
{
    lemma_no_variables(path, 0, env, places.variables@);
    assert(path.skip(0) =~= path);
}

/// A variable of the shell hides that of the process.
pub proof fn law_shell_variables_come_first(
    name: Seq<char>,
    env: Seq<(String, String)>,
    process: Seq<(String, String)>,
    other: Seq<(String, String)>,
)
    requires
        listed_value(env, name, 0) is Some,
    ensures
        value_of(name, env, process) == value_of(name, env, other),
{
}

/// The typed directory and the part behind it make up the prefix.
pub proof fn law_prefix_is_its_parts(prefix: Seq<char>, cwd: Seq<char>)
    requires
        cwd.len() > 0,
    ensures
        dir_part(prefix) + prefix_parts(prefix, cwd).1 == prefix,
{
    lemma_base_at(prefix, prefix.len() as int);
    assert(dir_part(prefix) + prefix_parts(prefix, cwd).1 =~= prefix);
}

proof fn lemma_base_at(s: Seq<char>, i: int)
    requires
        0 <= i <= s.len(),
    ensures
        0 <= base_at(s, i) <= i,
    decreases i,
{
    if i > 0 && s[i - 1] != '/' {
        lemma_base_at(s, i - 1);
    }
}

} // verus!
