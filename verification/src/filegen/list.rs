//! Rows for the entries of a directory.
use std::cmp::Ordering;

use fancy_regex::Regex;
use vstd::prelude::*;

use super::expand::{
    dir_part, dir_prefix, expand_home_with, path_expanded, prefix_parts, split_prefix, Places,
};
use super::filter::{
    admits, compiled_matches, filter_admits, kind_filter, regex_allows, regex_is_found, FilterView,
    PathFilter,
};
use crate::query::{is_ascii_text, is_match, matches_query};
use crate::runtime::{new_row, normal_priority, rows, Suggestion, SuggestionView};
use crate::text::{
    before, begins_with, chars_of, comes_before, concat, law_dictionary_order, lower, lowered, same,
    same_ignoring_case,
};

verus! {

/// The number of path rows at most.
pub const MAX_RESULTS: usize = 50;

// ---------------------------------------------------------------------------
// The order of file names
// ---------------------------------------------------------------------------
/// The Unicode lowercase form of a character, as `char::to_lowercase` gives it.
pub uninterp spec fn lower_form(c: char) -> Seq<char>;

/// Calls `char::to_lowercase` and gathers what it yields. The result depends on
/// the character alone; an ASCII character gives its ASCII lowercase form.
#[verifier::external_body]
fn lower_char(c: char) -> (folded: String)
    ensures
        folded@ == lower_form(c),
        (c as u32) <= 0x7f ==> folded@ == seq![lower(c)],
{
    c.to_lowercase().collect()
}

/// Whether a character is lowercase, as `char::is_lowercase` answers.
pub uninterp spec fn is_small(c: char) -> bool;

/// Calls `char::is_lowercase`. The answer depends on the character alone; of
/// ASCII characters the letters `a` to `z` are lowercase.
#[verifier::external_body]
fn is_small_char(c: char) -> (small: bool)
    ensures
        small == is_small(c),
        (c as u32) <= 0x7f ==> small == ('a' <= c && c <= 'z'),
{
    c.is_lowercase()
}

/// The lowercase forms of all characters.
pub open spec fn folded_name(name: Seq<char>) -> Seq<char>
    decreases name.len(),
{
    if name.len() == 0 {
        Seq::empty()
    } else {
        folded_name(name.drop_last()) + lower_form(name.last())
    }
}

/// Computes [`folded_name`].
fn fold_name(name: &str) -> (folded: String)
    ensures
        folded@ == folded_name(name@),
        is_ascii_text(name@) ==> folded@ == lowered(name@),
{
    let s = chars_of(name);
    let mut folded = String::new();
    let mut i: usize = 0;
    proof {
        assert(s@.take(0) =~= Seq::<char>::empty());
        assert(folded@ =~= Seq::<char>::empty());
        assert(lowered(s@.take(0)) =~= Seq::<char>::empty());
    }
    while i < s.len()
        invariant
            i <= s@.len(),
            folded@ == folded_name(s@.take(i as int)),
            is_ascii_text(s@) ==> folded@ == lowered(s@.take(i as int)),
        decreases s@.len() - i,
    {
        proof {
            assert(s@.take(i + 1).drop_last() =~= s@.take(i as int));
        }
        let ghost had = folded@;
        let form = lower_char(s[i]);
        folded.push_str(&form);
        proof {
            if is_ascii_text(s@) {
                assert((s@[i as int]) as u32 <= 0x7f);
                assert(lowered(s@.take(i + 1)) =~= lowered(s@.take(i as int)).push(
                    lower(s@[i as int]),
                ));
                assert(had + form@ =~= had.push(lower(s@[i as int])));
            }
        }
        i += 1;
    }
    proof {
        assert(s@.take(s@.len() as int) =~= s@);
    }
    folded
}

/// Whether one character sorts before another of the same lowercase form:
/// lowercase first.
pub open spec fn small_first(a: char, b: char) -> bool {
    if is_small(a) != is_small(b) {
        is_small(a)
    } else {
        a < b
    }
}

/// The order of `a[i..]` and `b[i..]` by [`small_first`]; a shorter name that
/// the other one continues comes first.
pub open spec fn spelled_before(a: Seq<char>, b: Seq<char>, i: int) -> bool
    decreases b.len() - i,
{
    if i >= b.len() {
        false
    } else if i >= a.len() {
        true
    } else if a[i] == b[i] {
        spelled_before(a, b, i + 1)
    } else {
        small_first(a[i], b[i])
    }
}

/// Whether a name is that of a hidden file.
pub open spec fn is_hidden(name: Seq<char>) -> bool {
    name.len() > 0 && name[0] == '.'
}

/// The order of names: alphabetical up to case, then lowercase first.
pub open spec fn name_before(a: Seq<char>, b: Seq<char>) -> bool {
    if folded_name(a) != folded_name(b) {
        before(folded_name(a), folded_name(b))
    } else {
        spelled_before(a, b, 0)
    }
}

/// The order of file names: hidden files last, then by [`name_before`].
pub open spec fn file_before(a: Seq<char>, b: Seq<char>) -> bool {
    if is_hidden(a) != is_hidden(b) {
        is_hidden(b)
    } else {
        name_before(a, b)
    }
}

/// Whether an ASCII character is a lowercase letter.
pub open spec fn is_small_letter(c: char) -> bool {
    'a' <= c && c <= 'z'
}

/// [`spelled_before`] for ASCII names.
pub open spec fn ascii_spelled_before(a: Seq<char>, b: Seq<char>, i: int) -> bool
    decreases b.len() - i,
{
    if i >= b.len() {
        false
    } else if i >= a.len() {
        true
    } else if a[i] == b[i] {
        ascii_spelled_before(a, b, i + 1)
    } else if is_small_letter(a[i]) != is_small_letter(b[i]) {
        is_small_letter(a[i])
    } else {
        a[i] < b[i]
    }
}

/// [`name_before`] for ASCII names.
pub open spec fn ascii_name_before(a: Seq<char>, b: Seq<char>) -> bool {
    if lowered(a) != lowered(b) {
        before(lowered(a), lowered(b))
    } else {
        ascii_spelled_before(a, b, 0)
    }
}

proof fn lemma_spelled_asymmetric(a: Seq<char>, b: Seq<char>, i: int)
    requires
        0 <= i,
    ensures
        !(spelled_before(a, b, i) && spelled_before(b, a, i)),
    decreases b.len() - i,
{
    if i < b.len() && i < a.len() && a[i] == b[i] {
        lemma_spelled_asymmetric(a, b, i + 1);
    }
}

proof fn lemma_spelled_total(a: Seq<char>, b: Seq<char>, i: int)
    requires
        0 <= i <= a.len(),
        i <= b.len(),
        a.take(i) == b.take(i),
    ensures
        a == b || spelled_before(a, b, i) || spelled_before(b, a, i),
    decreases b.len() - i,
{
    if i < b.len() && i < a.len() && a[i] == b[i] {
        assert(a.take(i + 1) =~= a.take(i).push(a[i]));
        assert(b.take(i + 1) =~= b.take(i).push(b[i]));
        lemma_spelled_total(a, b, i + 1);
    } else if i == b.len() && i == a.len() {
        assert(a =~= a.take(i));
        assert(b =~= b.take(i));
    }
}

proof fn lemma_spelled_transitive(a: Seq<char>, b: Seq<char>, c: Seq<char>, i: int)
    requires
        0 <= i,
        spelled_before(a, b, i),
        spelled_before(b, c, i),
    ensures
        spelled_before(a, c, i),
    decreases c.len() - i,
{
    if i < a.len() && i < b.len() && i < c.len() && a[i] == b[i] && b[i] == c[i] {
        lemma_spelled_transitive(a, b, c, i + 1);
    }
}

/// The order of file names is strict and total.
pub proof fn law_file_order(a: Seq<char>, b: Seq<char>, c: Seq<char>)
    ensures
        !file_before(a, a),
        !(file_before(a, b) && file_before(b, a)),
        a == b || file_before(a, b) || file_before(b, a),
        file_before(a, b) && file_before(b, c) ==> file_before(a, c),
{
    law_dictionary_order(folded_name(a), folded_name(b), folded_name(c));
    law_dictionary_order(folded_name(a), folded_name(c), folded_name(b));
    lemma_spelled_asymmetric(a, a, 0);
    lemma_spelled_asymmetric(a, b, 0);
    assert(a.take(0) =~= b.take(0));
    lemma_spelled_total(a, b, 0);
    if spelled_before(a, b, 0) && spelled_before(b, c, 0) {
        lemma_spelled_transitive(a, b, c, 0);
    }
}

/// An entry that becomes a row.
struct Listed {
    name: String,
    is_dir: bool,
    folded: String,
    chars: Vec<char>,
}

impl Listed {
    spec fn sound(&self) -> bool {
        self.folded@ == folded_name(self.name@) && self.chars@ == self.name@
    }
}

/// Computes [`spelled_before`].
fn is_spelled_before(a: &[char], b: &[char]) -> (yes: bool)
    ensures
        yes == spelled_before(a@, b@, 0),
        is_ascii_text(a@) && is_ascii_text(b@) ==> yes == ascii_spelled_before(a@, b@, 0),
{
    let n = b.len();
    let mut i: usize = 0;
    while i < n
        invariant
            i <= n,
            n == b@.len(),
            i <= a@.len(),
            spelled_before(a@, b@, 0) == spelled_before(a@, b@, i as int),
            ascii_spelled_before(a@, b@, 0) == ascii_spelled_before(a@, b@, i as int),
        decreases n - i,
    {
        if i >= a.len() {
            return true;
        }
        let x = a[i];
        let y = b[i];
        if x != y {
            let small = is_small_char(x);
            let other = is_small_char(y);
            proof {
                if is_ascii_text(a@) && is_ascii_text(b@) {
                    assert((a@[i as int]) as u32 <= 0x7f);
                    assert((b@[i as int]) as u32 <= 0x7f);
                }
            }
            if small != other {
                return small;
            }
            return x < y;
        }
        i += 1;
    }
    false
}

fn comes_before_file(a: &Listed, b: &Listed) -> (yes: bool)
    requires
        a.sound(),
        b.sound(),
    ensures
        yes == file_before(a.name@, b.name@),
{
    let hidden = a.chars.len() > 0 && a.chars[0] == '.';
    let other = b.chars.len() > 0 && b.chars[0] == '.';
    if hidden != other {
        return other;
    }
    if !same(&a.folded, &b.folded) {
        return comes_before(&a.folded, &b.folded);
    }
    is_spelled_before(&a.chars, &b.chars)
}

/// Compares file names by [`name_before`]. Of ASCII names the order is that of
/// [`ascii_name_before`].
pub fn compare_file_names(left: &str, right: &str) -> (order: Ordering)
    ensures
        order is Less <==> name_before(left@, right@),
        order is Greater <==> name_before(right@, left@),
        order is Equal <==> left@ == right@,
        is_ascii_text(left@) && is_ascii_text(right@) ==> {
            &&& name_before(left@, right@) == ascii_name_before(left@, right@)
            &&& name_before(right@, left@) == ascii_name_before(right@, left@)
        },
{
    let folded_left = fold_name(left);
    let folded_right = fold_name(right);
    let a = chars_of(left);
    let b = chars_of(right);
    let forward = is_spelled_before(&a, &b);
    let backward = is_spelled_before(&b, &a);
    proof {
        law_dictionary_order(folded_left@, folded_right@, folded_left@);
        law_dictionary_order(folded_right@, folded_left@, folded_right@);
        lemma_spelled_asymmetric(left@, right@, 0);
        lemma_spelled_asymmetric(left@, left@, 0);
        assert(left@.take(0) =~= right@.take(0));
        lemma_spelled_total(left@, right@, 0);
    }
    if !same(&folded_left, &folded_right) {
        if comes_before(&folded_left, &folded_right) {
            Ordering::Less
        } else {
            Ordering::Greater
        }
    } else if forward {
        Ordering::Less
    } else if backward {
        Ordering::Greater
    } else {
        Ordering::Equal
    }
}

// ---------------------------------------------------------------------------
// Which entries are shown
// ---------------------------------------------------------------------------
/// An entry of a directory. Links count as what they lead to.
#[derive(Debug)]
pub struct DirEntry {
    pub name: String,
    pub is_dir: bool,
}

/// The shown name of an entry: folders end in a slash.
pub open spec fn shown_name(name: Seq<char>, is_dir: bool) -> Seq<char> {
    if is_dir && !(name.len() > 0 && name.last() == '/') {
        name.push('/')
    } else {
        name
    }
}

/// What the entries are held against.
#[verifier::ext_equal]
pub struct Listing {
    pub query: Seq<char>,
    pub fuzzy: bool,
}

/// Whether an entry becomes a row. `found` says whether the filter's expression
/// is found in its shown name.
pub open spec fn is_listed(
    filter: FilterView,
    listing: Listing,
    entry: DirEntry,
    found: bool,
) -> bool {
    let shown = shown_name(entry.name@, entry.is_dir);
    &&& entry.name@ != "."@ && entry.name@ != ".."@
    &&& lowered(entry.name@) != lowered(".DS_Store"@)
    &&& !(filter.folders_only && !entry.is_dir)
    &&& !(filter.files_only && entry.is_dir)
    &&& admits(filter, shown, entry.is_dir, found)
    &&& listing.query.len() == 0 || is_match(shown, listing.query, listing.fuzzy)
}

/// The entries that become rows, sorted by file name: those of the first `n`.
pub open spec fn listed(
    filter: FilterView,
    listing: Listing,
    entries: Seq<DirEntry>,
    found: Seq<bool>,
    n: int,
) -> Seq<(Seq<char>, bool)>
    decreases n,
{
    if n <= 0 {
        Seq::empty()
    } else {
        let earlier = listed(filter, listing, entries, found, n - 1);
        let entry = entries[n - 1];
        if is_listed(filter, listing, entry, found[n - 1]) {
            let shown = shown_name(entry.name@, entry.is_dir);
            earlier.insert(file_place(earlier, shown, 0), (shown, entry.is_dir))
        } else {
            earlier
        }
    }
}

/// The first place in a sorted list, from `i` on, whose name comes after the
/// given one.
pub open spec fn file_place(list: Seq<(Seq<char>, bool)>, name: Seq<char>, i: int) -> int
    decreases list.len() - i,
{
    if 0 <= i < list.len() && !file_before(name, list[i].0) {
        file_place(list, name, i + 1)
    } else {
        i
    }
}

/// Whether names do not decrease along a list.
pub open spec fn is_file_sorted(list: Seq<(Seq<char>, bool)>) -> bool {
    forall|i: int, j: int|
        #![trigger list[i], list[j]]
        0 <= i < j < list.len() ==> !file_before(list[j].0, list[i].0)
}

proof fn lemma_file_place(list: Seq<(Seq<char>, bool)>, name: Seq<char>, i: int)
    requires
        0 <= i <= list.len(),
    ensures
        i <= file_place(list, name, i) <= list.len(),
        forall|j: int| i <= j < file_place(list, name, i) ==> !file_before(
            name,
            (#[trigger] list[j]).0,
        ),
        file_place(list, name, i) < list.len() ==> file_before(
            name,
            list[file_place(list, name, i)].0,
        ),
    decreases list.len() - i,
{
    if i < list.len() && !file_before(name, list[i].0) {
        lemma_file_place(list, name, i + 1);
    }
}

proof fn lemma_file_place_is(list: Seq<(Seq<char>, bool)>, name: Seq<char>, i: int, k: int)
    requires
        0 <= i <= k <= list.len(),
        forall|j: int| i <= j < k ==> !file_before(name, (#[trigger] list[j]).0),
        k < list.len() ==> file_before(name, list[k].0),
    ensures
        file_place(list, name, i) == k,
    decreases k - i,
{
    if i < k {
        assert(!file_before(name, list[i].0));
        lemma_file_place_is(list, name, i + 1, k);
    }
}

/// Path rows are sorted: ordinary entries come first, hidden ones follow, and
/// within both names are in alphabetical order.
pub proof fn law_entries_are_sorted(
    filter: FilterView,
    listing: Listing,
    entries: Seq<DirEntry>,
    found: Seq<bool>,
    n: int,
)
    requires
        0 <= n <= entries.len(),
        found.len() == entries.len(),
    ensures
        is_file_sorted(listed(filter, listing, entries, found, n)),
    decreases n,
{
    if n > 0 {
        law_entries_are_sorted(filter, listing, entries, found, n - 1);
        let earlier = listed(filter, listing, entries, found, n - 1);
        let entry = entries[n - 1];
        if is_listed(filter, listing, entry, found[n - 1]) {
            let name = shown_name(entry.name@, entry.is_dir);
            let k = file_place(earlier, name, 0);
            lemma_file_place(earlier, name, 0);
            let list = listed(filter, listing, entries, found, n);
            assert(list == earlier.insert(k, (name, entry.is_dir)));
            assert forall|i: int, j: int|
                #![trigger list[i], list[j]]
                0 <= i < j < list.len() implies !file_before(list[j].0, list[i].0) by {
                if j == k {
                    assert(list[i] == earlier[i]);
                } else if i == k {
                    assert(list[j] == earlier[j - 1]);
                    law_file_order(name, earlier[k].0, earlier[j - 1].0);
                    law_file_order(earlier[j - 1].0, name, earlier[k].0);
                } else {
                    let a = if i < k { i } else { i - 1 };
                    let b = if j < k { j } else { j - 1 };
                    assert(list[i] == earlier[a]);
                    assert(list[j] == earlier[b]);
                }
            }
        }
    }
}

// ---------------------------------------------------------------------------
// Rows
// ---------------------------------------------------------------------------
/// The row of a path.
pub open spec fn path_row(name: Seq<char>, is_dir: bool, filter: FilterView) -> SuggestionView {
    let kind = if is_dir {
        "folder"@
    } else {
        "file"@
    };
    let priority = if is_dir {
        filter.folder_priority
    } else {
        filter.file_priority
    };
    SuggestionView {
        insert_value: Some(name),
        priority: match priority {
            Some(priority) => normal_priority(priority),
            None => 50,
        },
        ..new_row(name, kind, kind)
    }
}

/// Computes [`path_row`].
pub fn path_suggestion_with_filter(name: &str, is_dir: bool, filter: &PathFilter<'_>) -> (row:
    Suggestion)
    ensures
        row@ == path_row(name@, is_dir, filter@),
{
    let kind = if is_dir {
        "folder"
    } else {
        "file"
    };
    let row = Suggestion::new(name, kind, kind).with_insert_value(name);
    let priority = if is_dir {
        filter.folder_priority
    } else {
        filter.file_priority
    };
    match priority {
        Some(priority) => row.with_priority(priority),
        None => row,
    }
}

/// The rows of a list, each name behind the typed directory.
pub open spec fn path_rows(
    list: Seq<(Seq<char>, bool)>,
    dir: Seq<char>,
    filter: FilterView,
) -> Seq<SuggestionView> {
    Seq::new(list.len(), |i: int| path_row(dir + list[i].0, list[i].1, filter))
}

/// The row of the parent directory, where it is offered. It replaces only the
/// part behind the last slash.
pub open spec fn parent_rows(
    filter: FilterView,
    listing: Listing,
    parent_found: bool,
) -> Seq<SuggestionView> {
    if !filter.files_only && is_match("../"@, listing.query, listing.fuzzy) && admits(
        filter,
        "../"@,
        true,
        parent_found,
    ) {
        seq![
            SuggestionView { query_term: Some(listing.query), ..path_row("../"@, true, filter) },
        ]
    } else {
        Seq::empty()
    }
}

/// The rows of a directory: the first entries in order, then the parent.
pub open spec fn directory_rows(
    dir: Seq<char>,
    listing: Listing,
    filter: FilterView,
    entries: Seq<DirEntry>,
    found: Seq<bool>,
    parent_found: bool,
) -> Seq<SuggestionView> {
    let list = listed(filter, listing, entries, found, entries.len() as int);
    let kept = if list.len() < MAX_RESULTS {
        list
    } else {
        list.take(MAX_RESULTS - 1)
    };
    path_rows(kept, dir, filter) + parent_rows(filter, listing, parent_found)
}

spec fn listed_views(list: Seq<Listed>) -> Seq<(Seq<char>, bool)> {
    Seq::new(list.len(), |i: int| (list[i].name@, list[i].is_dir))
}

fn find_file_place(list: &[Listed], item: &Listed) -> (place: usize)
    requires
        item.sound(),
        forall|i: int| 0 <= i < list@.len() ==> (#[trigger] list@[i]).sound(),
        is_file_sorted(listed_views(list@)),
    ensures
        place == file_place(listed_views(list@), item.name@, 0),
        place <= list@.len(),
{
    let ghost views = listed_views(list@);
    let ghost name = item.name@;
    let mut low: usize = 0;
    let mut high: usize = list.len();
    while low < high
        invariant
            low <= high <= list@.len(),
            views == listed_views(list@),
            name == item.name@,
            item.sound(),
            is_file_sorted(views),
            forall|i: int| 0 <= i < list@.len() ==> (#[trigger] list@[i]).sound(),
            forall|j: int| 0 <= j < low ==> !file_before(name, (#[trigger] views[j]).0),
            forall|j: int| high <= j < views.len() ==> file_before(name, (#[trigger] views[j]).0),
        decreases high - low,
    {
        let mid: usize = low + (high - low) / 2;
        let ghost middle = views[mid as int].0;
        if comes_before_file(item, &list[mid]) {
            proof {
                assert forall|j: int| mid <= j < views.len() implies file_before(
                    name,
                    (#[trigger] views[j]).0,
                ) by {
                    if j > mid {
                        assert(!file_before(views[j].0, views[mid as int].0));
                        law_file_order(name, middle, views[j].0);
                        law_file_order(middle, views[j].0, name);
                    }
                }
            }
            high = mid;
        } else {
            proof {
                assert forall|j: int| 0 <= j < mid + 1 implies !file_before(
                    name,
                    (#[trigger] views[j]).0,
                ) by {
                    if j < mid {
                        assert(!file_before(views[mid as int].0, views[j].0));
                        law_file_order(name, views[j].0, middle);
                        law_file_order(views[j].0, middle, name);
                    }
                }
            }
            low = mid + 1;
        }
    }
    proof {
        lemma_file_place_is(views, name, 0, low as int);
    }
    low
}

fn entry_is_listed(
    filter: &PathFilter<'_>,
    query: &str,
    fuzzy: bool,
    entry: &DirEntry,
    shown: &str,
    found: bool,
) -> (yes: bool)
    requires
        shown@ == shown_name(entry.name@, entry.is_dir),
    ensures
        yes == is_listed(filter@, (Listing { query: query@, fuzzy }), *entry, found),
{
    if same(&entry.name, ".") || same(&entry.name, "..") {
        return false;
    }
    if same_ignoring_case(&entry.name, ".DS_Store") {
        return false;
    }
    if filter.folders_only && !entry.is_dir {
        return false;
    }
    if filter.files_only && entry.is_dir {
        return false;
    }
    if !filter_admits(filter, shown, entry.is_dir, found) {
        return false;
    }
    query.is_empty() || matches_query(shown, query, fuzzy)
}

/// Computes [`shown_name`].
pub fn entry_label(entry: &DirEntry) -> (shown: String)
    ensures
        shown@ == shown_name(entry.name@, entry.is_dir),
{
    let s = chars_of(&entry.name);
    let mut shown = entry.name.clone();
    if entry.is_dir && !(s.len() > 0 && s[s.len() - 1] == '/') {
        shown.push('/');
    }
    shown
}

/// The sorted entries that become rows.
fn list_entries(
    query: &str,
    fuzzy: bool,
    filter: &PathFilter<'_>,
    entries: &[DirEntry],
    found: &[bool],
) -> (list: Vec<Listed>)
    requires
        found@.len() == entries@.len(),
    ensures
        listed_views(list@) == listed(
            filter@,
            (Listing { query: query@, fuzzy }),
            entries@,
            found@,
            entries@.len() as int,
        ),
{
    let ghost listing = Listing { query: query@, fuzzy };
    let mut list: Vec<Listed> = Vec::new();
    let mut n: usize = 0;
    proof {
        assert(listed_views(list@) =~= Seq::<(Seq<char>, bool)>::empty());
    }
    while n < entries.len()
        invariant
            n <= entries@.len(),
            found@.len() == entries@.len(),
            listing == (Listing { query: query@, fuzzy }),
            listed_views(list@) == listed(filter@, listing, entries@, found@, n as int),
            forall|i: int| 0 <= i < list@.len() ==> (#[trigger] list@[i]).sound(),
        decreases entries@.len() - n,
    {
        let shown = entry_label(&entries[n]);
        if entry_is_listed(filter, query, fuzzy, &entries[n], &shown, found[n]) {
            let folded = fold_name(&shown);
            let chars = chars_of(&shown);
            let item = Listed { name: shown, is_dir: entries[n].is_dir, folded, chars };
            let ghost had = list@;
            let ghost added = item;
            proof {
                law_entries_are_sorted(filter@, listing, entries@, found@, n as int);
            }
            let place = find_file_place(&list, &item);
            list.insert(place, item);
            proof {
                assert(listed_views(list@) =~= listed_views(had).insert(
                    place as int,
                    (added.name@, added.is_dir),
                ));
                assert forall|i: int| 0 <= i < list@.len() implies (#[trigger] list@[i]).sound() by {
                    if i < place {
                        assert(list@[i] == had[i]);
                    } else if i > place {
                        assert(list@[i] == had[i - 1]);
                    }
                }
            }
        }
        n += 1;
    }
    list
}

/// Computes [`directory_rows`]. `found` says of each entry whether the filter's
/// expression is found in its shown name, `parent_found` whether it is found in
/// `../`.
pub fn complete_entries(
    dir: &str,
    query: &str,
    fuzzy: bool,
    filter: &PathFilter<'_>,
    entries: &[DirEntry],
    found: &[bool],
    parent_found: bool,
) -> (out: Vec<Suggestion>)
    requires
        found@.len() == entries@.len(),
    ensures
        rows(out@) == directory_rows(
            dir@,
            (Listing { query: query@, fuzzy }),
            filter@,
            entries@,
            found@,
            parent_found,
        ),
{
    let ghost listing = Listing { query: query@, fuzzy };
    let list = list_entries(query, fuzzy, filter, entries, found);
    let ghost all = listed_views(list@);
    let count: usize = if list.len() < MAX_RESULTS {
        list.len()
    } else {
        MAX_RESULTS - 1
    };
    let ghost kept = all.take(count as int);
    proof {
        if count == list@.len() {
            assert(kept =~= all);
        }
    }
    let mut out: Vec<Suggestion> = Vec::new();
    let mut i: usize = 0;
    proof {
        assert(rows(out@) =~= path_rows(kept, dir@, filter@).take(0));
    }
    while i < count
        invariant
            i <= count <= list@.len(),
            all == listed_views(list@),
            kept == all.take(count as int),
            rows(out@) == path_rows(kept, dir@, filter@).take(i as int),
        decreases count - i,
    {
        let name = concat(dir, &list[i].name);
        let row = path_suggestion_with_filter(&name, list[i].is_dir, filter);
        let ghost had = out@;
        let ghost view = row@;
        out.push(row);
        i += 1;
        proof {
            assert(rows(out@) =~= rows(had).push(view));
            assert(path_rows(kept, dir@, filter@).take(i as int) =~= path_rows(
                kept,
                dir@,
                filter@,
            ).take(i - 1).push(view));
        }
    }
    let ghost before_parent = out@;
    proof {
        assert(path_rows(kept, dir@, filter@).take(count as int) =~= path_rows(
            kept,
            dir@,
            filter@,
        ));
        assert(rows(before_parent) + Seq::<SuggestionView>::empty() =~= rows(before_parent));
    }
    if !filter.files_only && matches_query("../", query, fuzzy) && filter_admits(
        filter,
        "../",
        true,
        parent_found,
    ) {
        let row = path_suggestion_with_filter("../", true, filter).with_query_term(
            Some(query.to_owned()),
        );
        let ghost view = row@;
        out.push(row);
        proof {
            assert(rows(out@) =~= rows(before_parent) + seq![view]);
        }
    }
    out
}

// ---------------------------------------------------------------------------
// From a prefix to rows
// ---------------------------------------------------------------------------
/// The directory in which relative paths start.
pub open spec fn list_root(filter: FilterView, cwd: Seq<char>) -> Seq<char> {
    match filter.root_directory {
        Some(root) => if root.len() > 0 {
            root
        } else {
            cwd
        },
        None => cwd,
    }
}

/// The prefix as it is looked up: a bare `~` is the home directory.
pub open spec fn whole_prefix(prefix: Seq<char>) -> Seq<char> {
    if prefix == "~"@ {
        "~/"@
    } else {
        prefix
    }
}

/// The directory that a prefix lists and the part that entries match; absent
/// for a relative prefix without a directory to start in.
pub open spec fn listed_parts(
    prefix: Seq<char>,
    cwd: Seq<char>,
    filter: FilterView,
    places: Places,
) -> Option<(Seq<char>, Seq<char>)> {
    let root = list_root(filter, cwd);
    if root.len() == 0 && !(prefix.len() > 0 && (prefix[0] == '/' || prefix[0] == '~')) {
        None
    } else {
        Some(
            prefix_parts(
                path_expanded(whole_prefix(prefix), filter.environment, places),
                root,
            ),
        )
    }
}

/// Computes [`listed_parts`].
pub fn directory_to_list(
    prefix: &str,
    cwd: &str,
    filter: &PathFilter<'_>,
    places: &Places,
) -> (parts: Option<(String, String)>)
    ensures
        match parts {
            Some((dir, query)) => listed_parts(prefix@, cwd@, filter@, *places) == Some(
                (dir@, query@),
            ),
            None => listed_parts(prefix@, cwd@, filter@, *places) is None,
        },
{
    let root = match filter.root_directory {
        Some(root) => if root.is_empty() {
            cwd
        } else {
            root
        },
        None => cwd,
    };
    let s = chars_of(prefix);
    if root.is_empty() && !(s.len() > 0 && (s[0] == '/' || s[0] == '~')) {
        return None;
    }
    let whole = if same(prefix, "~") {
        "~/"
    } else {
        prefix
    };
    let expanded = expand_home_with(whole, filter.environment, places);
    Some(split_prefix(&expanded, root))
}

/// Whether the filter's expression is found in the shown name of each entry.
pub open spec fn regex_answers(filter: FilterView, entries: Seq<DirEntry>) -> Seq<bool> {
    Seq::new(
        entries.len(),
        |i: int|
            regex_allows(filter, shown_name(entries[i].name@, entries[i].is_dir),
            ),
    )
}

fn search_entries(
    filter: &PathFilter<'_>,
    regex: Option<&Regex>,
    entries: &[DirEntry],
) -> (found: Vec<bool>)
    requires
        forall|name: Seq<char>|
            #[trigger] regex_allows(filter@, name)
                == (regex matches Some(regex) && super::filter::regex_finds(
                super::filter::regex_source(*regex),
                name,
            ) == Some(true)),
    ensures
        found@ == regex_answers(filter@, entries@),
{
    let ghost answers = regex_answers(filter@, entries@);
    let mut found: Vec<bool> = Vec::new();
    let mut i: usize = 0;
    while i < entries.len()
        invariant
            i <= entries@.len(),
            answers == regex_answers(filter@, entries@),
            found@ == answers.take(i as int),
            forall|name: Seq<char>|
                #[trigger] regex_allows(filter@, name)
                    == (regex matches Some(regex) && super::filter::regex_finds(
                    super::filter::regex_source(*regex),
                    name,
                ) == Some(true)),
        decreases entries@.len() - i,
    {
        let ghost had = found@;
        let yes = regex_is_found(regex, &entry_label(&entries[i]));
        found.push(yes);
        i += 1;
        proof {
            assert(answers.take(i as int) =~= answers.take(i - 1).push(answers[i - 1]));
        }
    }
    proof {
        assert(answers.take(entries@.len() as int) =~= answers);
    }
    found
}

/// The rows of a prefix, given the entries of the directory that it lists. A
/// directory that cannot be read gives no rows.
pub open spec fn rows_for_path(
    prefix: Seq<char>,
    cwd: Seq<char>,
    fuzzy: bool,
    filter: FilterView,
    places: Places,
    entries: Option<Seq<DirEntry>>,
) -> Seq<SuggestionView> {
    match (listed_parts(prefix, cwd, filter, places), entries) {
        (Some((dir, query)), Some(entries)) => directory_rows(
            dir_part(whole_prefix(prefix)),
            Listing { query, fuzzy },
            filter,
            entries,
            regex_answers(filter, entries),
            regex_allows(filter, "../"@),
        ),
        _ => Seq::empty(),
    }
}

/// Computes [`rows_for_path`]. `entries` are those of the directory that
/// [`directory_to_list`] gives.
pub fn complete_path_filtered(
    prefix: &str,
    cwd: &str,
    fuzzy: bool,
    filter: &PathFilter<'_>,
    places: &Places,
    entries: Option<&[DirEntry]>,
) -> (out: Vec<Suggestion>)
    ensures
        rows(out@) == rows_for_path(
            prefix@,
            cwd@,
            fuzzy,
            filter@,
            *places,
            match entries {
                Some(entries) => Some(entries@),
                None => None,
            },
        ),
{
    let none: Vec<Suggestion> = Vec::new();
    proof {
        assert(rows(none@) =~= Seq::<SuggestionView>::empty());
    }
    let (_, query) = match directory_to_list(prefix, cwd, filter, places) {
        Some(parts) => parts,
        None => {
            return none;
        },
    };
    let entries = match entries {
        Some(entries) => entries,
        None => {
            return none;
        },
    };
    let regex = compiled_matches(filter);
    let found = search_entries(filter, regex.as_ref(), entries);
    let parent_found = regex_is_found(regex.as_ref(), "../");
    let whole = if same(prefix, "~") {
        "~/"
    } else {
        prefix
    };
    let dir = dir_prefix(whole);
    complete_entries(&dir, &query, fuzzy, filter, entries, &found, parent_found)
}

/// The rows of a prefix without restrictions on names.
pub fn complete_path(
    prefix: &str,
    cwd: &str,
    folders_only: bool,
    fuzzy: bool,
    places: &Places,
    entries: Option<&[DirEntry]>,
) -> (out: Vec<Suggestion>)
    ensures
        rows(out@) == rows_for_path(
            prefix@,
            cwd@,
            fuzzy,
            kind_filter(folders_only),
            *places,
            match entries {
                Some(entries) => Some(entries@),
                None => None,
            },
        ),
{
    let texts: Vec<String> = Vec::new();
    let variables: Vec<(String, String)> = Vec::new();
    let filter = PathFilter {
        folders_only,
        files_only: false,
        extensions: texts.as_slice(),
        equals: texts.as_slice(),
        filter_folders: false,
        file_priority: None,
        folder_priority: None,
        root_directory: None,
        environment: variables.as_slice(),
        matches: None,
        matches_flags: None,
    };
    proof {
        assert(filter@ =~= kind_filter(folders_only));
    }
    complete_path_filtered(prefix, cwd, fuzzy, &filter, places, entries)
}

// ---------------------------------------------------------------------------
// Laws
// ---------------------------------------------------------------------------
/// A directory gives at most fifty rows.
pub proof fn law_path_rows_are_few(
    dir: Seq<char>,
    listing: Listing,
    filter: FilterView,
    entries: Seq<DirEntry>,
    found: Seq<bool>,
    parent_found: bool,
)
    ensures
        directory_rows(dir, listing, filter, entries, found, parent_found).len() <= MAX_RESULTS,
{
}

proof fn lemma_listed_kinds(
    filter: FilterView,
    listing: Listing,
    entries: Seq<DirEntry>,
    found: Seq<bool>,
    n: int,
)
    requires
        0 <= n <= entries.len(),
        found.len() == entries.len(),
    ensures
        forall|i: int|
            0 <= i < listed(filter, listing, entries, found, n).len() ==> {
                let (_, is_dir) = #[trigger] listed(filter, listing, entries, found, n)[i];
                &&& filter.folders_only ==> is_dir
                &&& filter.files_only ==> !is_dir
            },
    decreases n,
{
    if n > 0 {
        lemma_listed_kinds(filter, listing, entries, found, n - 1);
        let earlier = listed(filter, listing, entries, found, n - 1);
        let entry = entries[n - 1];
        if is_listed(filter, listing, entry, found[n - 1]) {
            let name = shown_name(entry.name@, entry.is_dir);
            let k = file_place(earlier, name, 0);
            lemma_file_place(earlier, name, 0);
            let list = listed(filter, listing, entries, found, n);
            assert(list == earlier.insert(k, (name, entry.is_dir)));
            assert forall|i: int| 0 <= i < list.len() implies {
                let (_, is_dir) = #[trigger] list[i];
                &&& filter.folders_only ==> is_dir
                &&& filter.files_only ==> !is_dir
            } by {
                if i < k {
                    assert(list[i] == earlier[i]);
                } else if i > k {
                    assert(list[i] == earlier[i - 1]);
                }
            }
        }
    }
}

/// A filter for folders gives folders alone, one for files gives files alone.
pub proof fn law_filters_keep_their_kind(
    dir: Seq<char>,
    listing: Listing,
    filter: FilterView,
    entries: Seq<DirEntry>,
    found: Seq<bool>,
    parent_found: bool,
)
    requires
        found.len() == entries.len(),
    ensures
        forall|i: int|
            0 <= i < directory_rows(dir, listing, filter, entries, found, parent_found).len() ==> {
                let row = #[trigger] directory_rows(
                    dir,
                    listing,
                    filter,
                    entries,
                    found,
                    parent_found,
                )[i];
                &&& filter.folders_only ==> row.kind == "folder"@
                &&& filter.files_only ==> row.kind == "file"@
            },
{
    lemma_listed_kinds(filter, listing, entries, found, entries.len() as int);
    let all = directory_rows(dir, listing, filter, entries, found, parent_found);
    let list = listed(filter, listing, entries, found, entries.len() as int);
    assert forall|i: int| 0 <= i < all.len() implies {
        let row = #[trigger] all[i];
        &&& filter.folders_only ==> row.kind == "folder"@
        &&& filter.files_only ==> row.kind == "file"@
    } by {
        if i < list.len() && i < MAX_RESULTS - 1 {
            assert(all[i] == path_row(dir + list[i].0, list[i].1, filter));
        }
    }
}

/// Rows keep the directory as it was typed, unexpanded: every name but that of
/// the parent begins with it.
pub proof fn law_rows_keep_the_typed_directory(
    prefix: Seq<char>,
    cwd: Seq<char>,
    fuzzy: bool,
    filter: FilterView,
    places: Places,
    entries: Option<Seq<DirEntry>>,
    i: int,
)
    requires
        0 <= i < rows_for_path(prefix, cwd, fuzzy, filter, places, entries).len(),
    ensures
        ({
            let name = rows_for_path(prefix, cwd, fuzzy, filter, places, entries)[i].name;
            name == "../"@ || begins_with(name, dir_part(whole_prefix(prefix)))
        }),
{
    let dir = dir_part(whole_prefix(prefix));
    let row = rows_for_path(prefix, cwd, fuzzy, filter, places, entries)[i];
    if row.name != "../"@ {
        assert(exists|entry: Seq<char>| row.name == #[trigger] (dir + entry));
        let entry = choose|entry: Seq<char>| row.name == #[trigger] (dir + entry);
        assert((dir + entry).take(dir.len() as int) =~= dir);
    }
}

} // verus!
