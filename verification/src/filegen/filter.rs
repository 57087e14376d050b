//! Filters on the names of directory entries.
use fancy_regex::Regex;
use vstd::prelude::*;

use crate::text::{chars_of, concat, holds_text, opt_str, opt_text, text_range, texts};

verus! {

/// Restrictions on path rows. The default restricts nothing.
#[derive(Debug, Default)]
pub struct PathFilter<'a> {
    pub folders_only: bool,
    pub files_only: bool,
    pub extensions: &'a [String],
    pub equals: &'a [String],
    /// Whether the name restrictions hold for folders too.
    pub filter_folders: bool,
    pub file_priority: Option<i64>,
    pub folder_priority: Option<i64>,
    /// Where relative paths start, in place of the working directory.
    pub root_directory: Option<&'a str>,
    /// The variables of the shell.
    pub environment: &'a [(String, String)],
    /// A regular expression for names, with its flags apart.
    pub matches: Option<&'a str>,
    pub matches_flags: Option<&'a str>,
}

/// Restrictions on path rows.
#[verifier::ext_equal]
pub struct FilterView {
    pub folders_only: bool,
    pub files_only: bool,
    pub extensions: Seq<Seq<char>>,
    pub equals: Seq<Seq<char>>,
    pub filter_folders: bool,
    pub file_priority: Option<i64>,
    pub folder_priority: Option<i64>,
    pub root_directory: Option<Seq<char>>,
    pub environment: Seq<(String, String)>,
    pub matches: Option<Seq<char>>,
    pub matches_flags: Option<Seq<char>>,
}

impl<'a> View for PathFilter<'a> {
    type V = FilterView;

    open spec fn view(&self) -> FilterView {
        FilterView {
            folders_only: self.folders_only,
            files_only: self.files_only,
            extensions: texts(self.extensions@),
            equals: texts(self.equals@),
            filter_folders: self.filter_folders,
            file_priority: self.file_priority,
            folder_priority: self.folder_priority,
            root_directory: opt_str(self.root_directory),
            environment: self.environment@,
            matches: opt_str(self.matches),
            matches_flags: opt_str(self.matches_flags),
        }
    }
}

/// A filter that restricts nothing but the kind of entry.
pub open spec fn kind_filter(folders_only: bool) -> FilterView {
    FilterView {
        folders_only,
        files_only: false,
        extensions: Seq::empty(),
        equals: Seq::empty(),
        filter_folders: false,
        file_priority: None,
        folder_priority: None,
        root_directory: None,
        environment: Seq::empty(),
        matches: None,
        matches_flags: None,
    }
}

// ---------------------------------------------------------------------------
// Regular expressions
// ---------------------------------------------------------------------------
/// A compiled regular expression of the `fancy_regex` crate.
#[verifier::external_type_specification]
#[verifier::external_body]
pub struct ExRegex(fancy_regex::Regex);

/// The pattern that a regular expression was compiled from, as
/// `Regex::as_str` gives it.
pub uninterp spec fn regex_source(regex: fancy_regex::Regex) -> Seq<char>;

/// Whether `Regex::new` accepts a pattern.
pub uninterp spec fn regex_compiles(pattern: Seq<char>) -> bool;

/// What `Regex::is_match` answers for the expression of a pattern on a text;
/// absent where the search is given up.
pub uninterp spec fn regex_finds(pattern: Seq<char>, text: Seq<char>) -> Option<bool>;

/// Calls `Regex::new`. Whether it succeeds depends on the pattern alone, and
/// the expression keeps the pattern.
#[verifier::external_body]
fn compile_regex(pattern: &str) -> (regex: Option<Regex>)
    ensures
        regex is Some == regex_compiles(pattern@),
        regex matches Some(regex) ==> regex_source(regex) == pattern@,
{
    Regex::new(pattern).ok()
}

/// Calls `Regex::is_match`. The answer depends on the pattern and the text
/// alone; it is absent where the search fails, as it does at the limit on
/// backtracking.
#[verifier::external_body]
fn search_regex(regex: &Regex, text: &str) -> (found: Option<bool>)
    ensures
        found == regex_finds(regex_source(*regex), text@),
{
    regex.is_match(text).ok()
}

/// The flags that an expression can be given in front of its pattern.
pub open spec fn inline_flags(flags: Seq<char>) -> Seq<char> {
    (if flags.contains('i') {
        seq!['i']
    } else {
        Seq::empty()
    }) + (if flags.contains('m') {
        seq!['m']
    } else {
        Seq::empty()
    }) + (if flags.contains('s') {
        seq!['s']
    } else {
        Seq::empty()
    })
}

/// The pattern of a filter with its flags in front; absent without a pattern.
pub open spec fn filter_pattern(matches: Option<Seq<char>>, flags: Option<Seq<char>>) -> Option<
    Seq<char>,
> {
    match matches {
        None => None,
        Some(source) => if source.len() == 0 {
            None
        } else {
            let inline = match flags {
                Some(flags) => inline_flags(flags),
                None => Seq::empty(),
            };
            if inline.len() == 0 {
                Some(source)
            } else {
                Some("(?"@ + inline + ")"@ + source)
            }
        },
    }
}

fn holds_char(s: &[char], c: char) -> (found: bool)
    ensures
        found == s@.contains(c),
{
    let mut i: usize = 0;
    while i < s.len()
        invariant
            i <= s@.len(),
            forall|k: int| 0 <= k < i ==> s@[k] != c,
        decreases s@.len() - i,
    {
        if s[i] == c {
            proof {
                assert(s@[i as int] == c);
            }
            return true;
        }
        i += 1;
    }
    false
}

/// Computes [`filter_pattern`].
pub fn pattern_with_flags(matches: Option<&str>, flags: Option<&str>) -> (pattern: Option<String>)
    ensures
        opt_text(pattern) == filter_pattern(opt_str(matches), opt_str(flags)),
{
    let source = match matches {
        None => {
            return None;
        },
        Some(source) => source,
    };
    if source.is_empty() {
        return None;
    }
    let mut inline = String::new();
    proof {
        assert(inline@ =~= Seq::<char>::empty());
    }
    if let Some(flags) = flags {
        let all = chars_of(flags);
        if holds_char(&all, 'i') {
            inline.push('i');
        }
        if holds_char(&all, 'm') {
            inline.push('m');
        }
        if holds_char(&all, 's') {
            inline.push('s');
        }
        proof {
            assert(inline@ =~= inline_flags(flags@));
        }
    }
    if inline.as_str().is_empty() {
        Some(source.to_owned())
    } else {
        let head = concat("(?", &inline);
        let head = concat(&head, ")");
        Some(concat(&head, source))
    }
}

/// The expression of a filter, where it has one that compiles.
pub fn compiled_matches(filter: &PathFilter<'_>) -> (regex: Option<Regex>)
    ensures
        match filter_pattern(filter@.matches, filter@.matches_flags) {
            Some(pattern) => regex is Some == regex_compiles(pattern) && (regex matches Some(regex)
                ==> regex_source(regex) == pattern),
            None => regex is None,
        },
{
    match pattern_with_flags(filter.matches, filter.matches_flags) {
        Some(pattern) => compile_regex(&pattern),
        None => None,
    }
}

/// Whether the expression of a filter is found in a name.
pub open spec fn regex_allows(filter: FilterView, name: Seq<char>) -> bool {
    match filter_pattern(filter.matches, filter.matches_flags) {
        Some(pattern) => regex_compiles(pattern) && regex_finds(pattern, name) == Some(true),
        None => false,
    }
}

/// Whether a compiled expression is found in a name. A search that is given up
/// finds nothing.
pub fn regex_is_found(regex: Option<&Regex>, name: &str) -> (found: bool)
    ensures
        found == (regex matches Some(regex) && regex_finds(regex_source(*regex), name@) == Some(
            true,
        )),
{
    match regex {
        Some(regex) => match search_regex(regex, name) {
            Some(found) => found,
            None => false,
        },
        None => false,
    }
}

// ---------------------------------------------------------------------------
// Names
// ---------------------------------------------------------------------------
/// Whether what follows one of the name's dots is an extension of the list.
pub open spec fn has_extension(name: Seq<char>, extensions: Seq<Seq<char>>) -> bool {
    exists|dot: int|
        0 <= dot < name.len() && #[trigger] name[dot] == '.' && extensions.contains(
            name.skip(dot + 1),
        )
}

/// Computes [`has_extension`].
pub fn extension_matches(name: &str, extensions: &[String]) -> (found: bool)
    ensures
        found == has_extension(name@, texts(extensions@)),
{
    let s = chars_of(name);
    let n = s.len();
    let mut i: usize = n;
    while i > 0
        invariant
            i <= n,
            n == s@.len(),
            s@ == name@,
            forall|dot: int|
                i <= dot < n && #[trigger] s@[dot] == '.' ==> !texts(extensions@).contains(
                    s@.skip(dot + 1),
                ),
        decreases i,
    {
        i -= 1;
        if s[i] == '.' {
            let suffix = text_range(&s, i + 1, n);
            proof {
                assert(suffix@ =~= s@.skip(i + 1));
            }
            if holds_text(extensions, &suffix) {
                return true;
            }
        }
    }
    false
}

/// Whether a filter admits a name. `found` says whether the filter's expression
/// is found in it.
pub open spec fn admits(filter: FilterView, name: Seq<char>, is_dir: bool, found: bool) -> bool {
    ||| filter.extensions.len() == 0 && filter.equals.len() == 0 && filter.matches is None
    ||| is_dir && !filter.filter_folders
    ||| filter.equals.contains(name)
    ||| found
    ||| has_extension(name, filter.extensions)
}

/// Computes [`admits`].
pub fn filter_admits(filter: &PathFilter<'_>, name: &str, is_dir: bool, found: bool) -> (yes: bool)
    ensures
        yes == admits(filter@, name@, is_dir, found),
{
    if filter.extensions.len() == 0 && filter.equals.len() == 0 && filter.matches.is_none() {
        return true;
    }
    if is_dir && !filter.filter_folders {
        return true;
    }
    holds_text(filter.equals, name) || found || extension_matches(name, filter.extensions)
}

/// Whether a filter with its compiled expression admits a name.
pub fn path_name_passes_filter(
    name: &str,
    is_dir: bool,
    filter: &PathFilter<'_>,
    matches: Option<&Regex>,
) -> (yes: bool)
    ensures
        yes == admits(
            filter@,
            name@,
            is_dir,
            matches matches Some(regex) && regex_finds(regex_source(*regex), name@) == Some(true),
        ),
{
    filter_admits(filter, name, is_dir, regex_is_found(matches, name))
}

} // verus!
