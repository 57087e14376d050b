//! Laws of the rows for the entries of a directory.
use vstd::prelude::*;

use super::text::law_prefixes;
use crate::filegen::filter::{admits, has_extension, FilterView};
use crate::filegen::list::{
    directory_rows, file_place, is_listed, listed, parent_rows, path_row, shown_name, DirEntry,
    Listing, MAX_RESULTS,
};
use crate::query::{is_match, lowercase};
use crate::text::{begins_with, lowered};

verus! {

/// An entry that is listed under a filter of this kind: not the directory itself
/// or its parent, not the file that one desktop leaves everywhere.
pub open spec fn is_ordinary(filter: FilterView, entry: DirEntry) -> bool {
    &&& entry.name@ != "."@
    &&& entry.name@ != ".."@
    &&& lowered(entry.name@) != lowered(".DS_Store"@)
    &&& filter.folders_only ==> entry.is_dir
    &&& filter.files_only ==> !entry.is_dir
}

/// A directory is shown with a slash behind its name, a file as it is called.
pub proof fn law_directories_end_in_a_slash(name: Seq<char>)
    ensures
        shown_name(name, false) == name,
        shown_name(name, true).len() > 0 && shown_name(name, true).last() == '/',
        begins_with(shown_name(name, true), name),
        (name.len() == 0 || name.last() != '/') ==> shown_name(name, true) == name + "/"@,
{
    reveal_strlit("/");
    law_prefixes(name, name, "/"@);
    let none = Seq::<char>::empty();
    law_prefixes(name, name, none);
    assert(name + none =~= name);
    assert(name + "/"@ =~= name.push('/'));
}

/// A name matches a query that begins it, whatever the case of the letters; without
/// fuzzy matching nothing else matches.
pub proof fn law_names_match_beginnings_in_any_case(name: Seq<char>, query: Seq<char>, fuzzy: bool)
    ensures
        begins_with(lowercase(name), lowercase(query)) ==> is_match(name, query, fuzzy),
        begins_with(name, query) ==> is_match(name, query, fuzzy),
        is_match(name, query, false) && query.len() > 0 ==> begins_with(name, query) || begins_with(
            lowercase(name),
            lowercase(query),
        ),
        query.len() == 0 ==> is_match(name, query, fuzzy),
{
    let none = Seq::<char>::empty();
    law_prefixes(name, query, none);
    assert(query + none =~= query);
    law_prefixes(lowercase(name), lowercase(query), none);
    assert(lowercase(query) + none =~= lowercase(query));
}

/// Every ordinary entry that the filter admits and whose shown name begins with
/// the query, in any case, is listed, whether matching is fuzzy or not.
pub proof fn law_matching_entries_are_listed(
    filter: FilterView,
    listing: Listing,
    entry: DirEntry,
    found: bool,
)
    requires
        is_ordinary(filter, entry),
        admits(filter, shown_name(entry.name@, entry.is_dir), entry.is_dir, found),
        listing.query.len() == 0 || begins_with(
            lowercase(shown_name(entry.name@, entry.is_dir)),
            lowercase(listing.query),
        ),
    ensures
        is_listed(filter, listing, entry, found),
{
    law_names_match_beginnings_in_any_case(
        shown_name(entry.name@, entry.is_dir),
        listing.query,
        listing.fuzzy,
    );
}

/// Only ordinary entries that the filter admits are listed; without fuzzy matching
/// only those that begin with the query in some case.
pub proof fn law_listed_entries_match(
    filter: FilterView,
    listing: Listing,
    entry: DirEntry,
    found: bool,
)
    requires
        is_listed(filter, listing, entry, found),
    ensures
        is_ordinary(filter, entry),
        admits(filter, shown_name(entry.name@, entry.is_dir), entry.is_dir, found),
        is_match(shown_name(entry.name@, entry.is_dir), listing.query, listing.fuzzy),
        !listing.fuzzy && listing.query.len() > 0 ==> {
            let shown = shown_name(entry.name@, entry.is_dir);
            begins_with(shown, listing.query) || begins_with(
                lowercase(shown),
                lowercase(listing.query),
            )
        },
{
    law_names_match_beginnings_in_any_case(
        shown_name(entry.name@, entry.is_dir),
        listing.query,
        listing.fuzzy,
    );
}

/// Without a filter everything is admitted; with one, directories unless they are
/// filtered too, and names that are listed, that the pattern finds, or that end in
/// a dot and one of the extensions.
pub proof fn law_filters_admit(filter: FilterView, name: Seq<char>, is_dir: bool, found: bool)
    ensures
        filter.extensions.len() == 0 && filter.equals.len() == 0 && filter.matches is None
            ==> admits(filter, name, is_dir, found),
        is_dir && !filter.filter_folders ==> admits(filter, name, is_dir, found),
        found ==> admits(filter, name, is_dir, found),
        filter.equals.contains(name) ==> admits(filter, name, is_dir, found),
        forall|stem: Seq<char>, k: int|
            0 <= k < filter.extensions.len() && name == #[trigger] (stem + "."@
                + filter.extensions[k]) ==> admits(filter, name, is_dir, found),
        !found && (!is_dir || filter.filter_folders) && !filter.equals.contains(name) && (
        filter.extensions.len() > 0 || filter.equals.len() > 0 || filter.matches is Some) && admits(
            filter,
            name,
            is_dir,
            found,
        ) ==> exists|stem: Seq<char>, k: int|
            0 <= k < filter.extensions.len() && name == #[trigger] (stem + "."@
                + filter.extensions[k]),
{
    reveal_strlit(".");
    assert forall|stem: Seq<char>, k: int|
        0 <= k < filter.extensions.len() && name == #[trigger] (stem + "."@ + filter.extensions[k]) implies admits(
        filter,
        name,
        is_dir,
        found,
    ) by {
        let dot = stem.len() as int;
        assert(name[dot] == '.');
        assert(name.skip(dot + 1) =~= filter.extensions[k]);
        assert(filter.extensions.contains(name.skip(dot + 1)));
        assert(has_extension(name, filter.extensions));
    }
    if has_extension(name, filter.extensions) {
        let dot = choose|dot: int|
            0 <= dot < name.len() && #[trigger] name[dot] == '.' && filter.extensions.contains(
                name.skip(dot + 1),
            );
        let k = choose|k: int|
            0 <= k < filter.extensions.len() && filter.extensions[k] == name.skip(dot + 1);
        assert(name =~= name.take(dot) + "."@ + filter.extensions[k]);
    }
}

proof fn lemma_file_place_inside(list: Seq<(Seq<char>, bool)>, name: Seq<char>, i: int)
    requires
        0 <= i <= list.len(),
    ensures
        i <= file_place(list, name, i) <= list.len(),
    decreases list.len() - i,
{
    if i < list.len() {
        lemma_file_place_inside(list, name, i + 1);
    }
}

/// One of the first `n` entries is listed and shown this way.
spec fn stands_for_one(
    filter: FilterView,
    listing: Listing,
    entries: Seq<DirEntry>,
    found: Seq<bool>,
    n: int,
    item: (Seq<char>, bool),
) -> bool {
    exists|k: int|
        0 <= k < n && is_listed(filter, listing, #[trigger] entries[k], found[k]) && item == (
            shown_name(entries[k].name@, entries[k].is_dir),
            entries[k].is_dir,
        )
}

proof fn lemma_listed_holds(
    filter: FilterView,
    listing: Listing,
    entries: Seq<DirEntry>,
    found: Seq<bool>,
    n: int,
)
    requires
        0 <= n <= entries.len(),
    ensures
        listed(filter, listing, entries, found, n).len() <= n,
        forall|k: int|
            0 <= k < n && is_listed(filter, listing, #[trigger] entries[k], found[k]) ==> listed(
                filter,
                listing,
                entries,
                found,
                n,
            ).contains((shown_name(entries[k].name@, entries[k].is_dir), entries[k].is_dir)),
        forall|p: int|
            0 <= p < listed(filter, listing, entries, found, n).len() ==> stands_for_one(
                filter,
                listing,
                entries,
                found,
                n,
                #[trigger] listed(filter, listing, entries, found, n)[p],
            ),
    decreases n,
{
    if n > 0 {
        lemma_listed_holds(filter, listing, entries, found, n - 1);
        let earlier = listed(filter, listing, entries, found, n - 1);
        let out = listed(filter, listing, entries, found, n);
        let last = entries[n - 1];
        let shown = shown_name(last.name@, last.is_dir);
        let at = file_place(earlier, shown, 0);
        lemma_file_place_inside(earlier, shown, 0);
        let taken = is_listed(filter, listing, last, found[n - 1]);
        assert forall|k: int|
            0 <= k < n && is_listed(filter, listing, #[trigger] entries[k], found[k]) implies out.contains(
            (shown_name(entries[k].name@, entries[k].is_dir), entries[k].is_dir),
        ) by {
            let item = (shown_name(entries[k].name@, entries[k].is_dir), entries[k].is_dir);
            if k < n - 1 {
                let p = choose|p: int| 0 <= p < earlier.len() && earlier[p] == item;
                if !taken || p < at {
                    assert(out[p] == item);
                } else {
                    assert(out[p + 1] == item);
                }
            } else {
                assert(out[at] == item);
            }
        }
        assert forall|p: int| 0 <= p < out.len() implies stands_for_one(
            filter,
            listing,
            entries,
            found,
            n,
            #[trigger] out[p],
        ) by {
            if taken && p == at {
                assert(is_listed(filter, listing, entries[n - 1], found[n - 1]));
            } else {
                let q = if !taken || p < at { p } else { p - 1 };
                assert(out[p] == earlier[q]);
                let k = choose|k: int|
                    0 <= k < n - 1 && is_listed(filter, listing, #[trigger] entries[k], found[k])
                        && earlier[q] == (
                        shown_name(entries[k].name@, entries[k].is_dir),
                        entries[k].is_dir,
                    );
                assert(is_listed(filter, listing, entries[k], found[k]));
            }
        }
    }
}

/// Of at most 49 entries every one that is listed has a row, under its shown name
/// behind the directory that was typed.
pub proof fn law_listed_entries_have_rows(
    dir: Seq<char>,
    listing: Listing,
    filter: FilterView,
    entries: Seq<DirEntry>,
    found: Seq<bool>,
    parent_found: bool,
    k: int,
)
    requires
        0 <= k < entries.len(),
        entries.len() <= 49 || listed(filter, listing, entries, found, entries.len() as int).len()
            <= 49,
        is_listed(filter, listing, entries[k], found[k]),
    ensures
        ({
            let out = directory_rows(dir, listing, filter, entries, found, parent_found);
            exists|p: int|
                {
                    &&& 0 <= p < out.len()
                    &&& (#[trigger] out[p]).name == dir + shown_name(
                        entries[k].name@,
                        entries[k].is_dir,
                    )
                    &&& out[p].insert_value == Some(out[p].name)
                    &&& out[p].kind == if entries[k].is_dir {
                        "folder"@
                    } else {
                        "file"@
                    }
                }
        }),
{
    let n = entries.len() as int;
    lemma_listed_holds(filter, listing, entries, found, n);
    let list = listed(filter, listing, entries, found, n);
    let item = (shown_name(entries[k].name@, entries[k].is_dir), entries[k].is_dir);
    assert(list.contains(item));
    let p = choose|p: int| 0 <= p < list.len() && list[p] == item;
    let out = directory_rows(dir, listing, filter, entries, found, parent_found);
    assert(out[p] == path_row(dir + item.0, item.1, filter));
}

/// Every ordinary entry that the filter admits and whose shown name begins with
/// the query, in any case, has a row, if there are at most 49 entries.
pub proof fn law_matching_entries_have_rows(
    dir: Seq<char>,
    listing: Listing,
    filter: FilterView,
    entries: Seq<DirEntry>,
    found: Seq<bool>,
    parent_found: bool,
    k: int,
)
    requires
        0 <= k < entries.len() <= 49,
        is_ordinary(filter, entries[k]),
        admits(filter, shown_name(entries[k].name@, entries[k].is_dir), entries[k].is_dir, found[k]),
        begins_with(
            lowercase(shown_name(entries[k].name@, entries[k].is_dir)),
            lowercase(listing.query),
        ),
    ensures
        ({
            let out = directory_rows(dir, listing, filter, entries, found, parent_found);
            exists|p: int|
                0 <= p < out.len() && (#[trigger] out[p]).name == dir + shown_name(
                    entries[k].name@,
                    entries[k].is_dir,
                )
        }),
{
    law_matching_entries_are_listed(filter, listing, entries[k], found[k]);
    law_listed_entries_have_rows(dir, listing, filter, entries, found, parent_found, k);
}

/// Every row but the one for the parent directory stands for an entry that is
/// listed.
pub proof fn law_rows_stand_for_entries(
    dir: Seq<char>,
    listing: Listing,
    filter: FilterView,
    entries: Seq<DirEntry>,
    found: Seq<bool>,
    parent_found: bool,
    p: int,
)
    requires
        0 <= p < directory_rows(dir, listing, filter, entries, found, parent_found).len(),
    ensures
        ({
            let row = directory_rows(dir, listing, filter, entries, found, parent_found)[p];
            row.name == "../"@ || exists|k: int|
                0 <= k < entries.len() && is_listed(filter, listing, #[trigger] entries[k], found[k])
                    && row.name == dir + shown_name(entries[k].name@, entries[k].is_dir)
        }),
{
    let n = entries.len() as int;
    lemma_listed_holds(filter, listing, entries, found, n);
    let list = listed(filter, listing, entries, found, n);
    let kept = if list.len() < MAX_RESULTS { list } else { list.take(MAX_RESULTS - 1) };
    let out = directory_rows(dir, listing, filter, entries, found, parent_found);
    if p < kept.len() {
        assert(kept[p] == list[p]);
        assert(stands_for_one(filter, listing, entries, found, n, list[p]));
        assert(out[p] == path_row(dir + list[p].0, list[p].1, filter));
    } else {
        assert(out[p] == parent_rows(filter, listing, parent_found)[p - kept.len()]);
    }
}

/// The parent directory is offered, last, where directories are and the query is
/// empty or begins it; without fuzzy matching nothing else brings it up.
pub proof fn law_the_parent_comes_last(
    dir: Seq<char>,
    listing: Listing,
    filter: FilterView,
    entries: Seq<DirEntry>,
    found: Seq<bool>,
    parent_found: bool,
)
    requires
        !filter.files_only,
        admits(filter, "../"@, true, parent_found),
    ensures
        begins_with("../"@, listing.query) ==> {
            let out = directory_rows(dir, listing, filter, entries, found, parent_found);
            out.len() > 0 && out.last().name == "../"@ && out.last().insert_value == Some("../"@)
                && out.last().query_term == Some(listing.query)
        },
        !listing.fuzzy && listing.query.len() > 0 && !begins_with("../"@, listing.query)
            && !begins_with(lowercase("../"@), lowercase(listing.query)) ==> parent_rows(
            filter,
            listing,
            parent_found,
        ).len() == 0,
{
    law_names_match_beginnings_in_any_case("../"@, listing.query, listing.fuzzy);
    let out = directory_rows(dir, listing, filter, entries, found, parent_found);
    let above = parent_rows(filter, listing, parent_found);
    if above.len() > 0 {
        assert(out.last() == above.last());
    }
}

/// A row has the priority that the filter gives its kind, and the usual one where it
/// gives none.
pub proof fn law_rows_have_the_priority_of_their_kind(
    name: Seq<char>,
    is_dir: bool,
    filter: FilterView,
)
    ensures
        ({
            let row = path_row(name, is_dir, filter);
            let own = if is_dir {
                filter.folder_priority
            } else {
                filter.file_priority
            };
            &&& own is None ==> row.priority == 50
            &&& own matches Some(priority) ==> 0 < priority <= 100 ==> row.priority == priority
            &&& row.name == name
            &&& row.insert_value == Some(name)
        }),
{
}

} // verus!
