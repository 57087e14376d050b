//! The registry of command specs: which commands are known, where their specs
//! are stored, and the specs in memory, least recently used first.
use std::sync::Arc;
use vstd::prelude::*;

use crate::ir::Spec;
use crate::paths::{is_same_path, same_path};
use crate::query::{
    cmp_ignore_ascii_case, is_match, lowercase, matches_query, starts_with_ignore_case,
};
use crate::text::{
    before_ignoring_case, begins_with, copy_texts, holds_text, law_dictionary_order, lowered, same,
    same_ignoring_case, share, texts,
};

verus! {

/// The number of specs kept in memory.
pub const MAX_CACHED_SPECS: usize = 48;

/// The number of command names offered at once.
pub const MAX_NAME_MATCHES: usize = 50;

/// A spec in memory and the names under which it is found.
struct LoadedSpec {
    spec: Arc<Spec>,
    names: Vec<String>,
}

/// The known commands and the specs in memory.
pub struct Registry {
    /// Specs in memory, least recently used first. A name belongs to one of
    /// them at most.
    loaded: Vec<LoadedSpec>,
    /// Command names and the files that hold their specs.
    files: Vec<(String, String)>,
    /// The directory of the spec files.
    root: String,
    /// Whether the command names come from an index. Otherwise every spec file
    /// names a command, and so do the aliases inside it.
    has_command_file_map: bool,
    /// The command names, sorted and distinct up to ASCII case.
    names: Vec<String>,
}

/// A spec in memory and the names under which it is found.
pub struct Entry {
    pub spec: Arc<Spec>,
    pub names: Seq<Seq<char>>,
}

/// What a registry holds.
pub struct RegistryView {
    pub entries: Seq<Entry>,
    pub files: Seq<(Seq<char>, Seq<char>)>,
    pub root: Seq<char>,
    pub has_map: bool,
    pub names: Seq<Seq<char>>,
}

/// What has to happen before a spec can be used.
pub enum LoadStep {
    /// The spec is in memory.
    Cached,
    /// The command is not known.
    Unknown,
    /// The spec is to be read from the file.
    Read(String),
}

impl View for LoadedSpec {
    type V = Entry;

    closed spec fn view(&self) -> Entry {
        Entry { spec: self.spec, names: texts(self.names@) }
    }
}

impl View for Registry {
    type V = RegistryView;

    closed spec fn view(&self) -> RegistryView {
        RegistryView {
            entries: Seq::new(self.loaded@.len(), |i: int| self.loaded@[i]@),
            files: Seq::new(
                self.files@.len(),
                |i: int| (self.files@[i].0@, self.files@[i].1@),
            ),
            root: self.root@,
            has_map: self.has_command_file_map,
            names: texts(self.names@),
        }
    }
}

// ---------------------------------------------------------------------------
// Sorted names
// ---------------------------------------------------------------------------
/// Whether the names increase strictly up to ASCII case.
pub open spec fn is_sorted(names: Seq<Seq<char>>) -> bool {
    forall|i: int, j: int|
        0 <= i < j < names.len() ==> before_ignoring_case(#[trigger] names[i], #[trigger] names[j])
}

/// The first place from `i` on whose name does not come before `name`.
pub open spec fn place_for(names: Seq<Seq<char>>, name: Seq<char>, i: int) -> int
    decreases names.len() - i,
{
    if 0 <= i < names.len() && before_ignoring_case(names[i], name) {
        place_for(names, name, i + 1)
    } else {
        i
    }
}

/// Whether the list holds the name up to ASCII case.
pub open spec fn knows(names: Seq<Seq<char>>, name: Seq<char>) -> bool {
    exists|i: int| 0 <= i < names.len() && lowered(#[trigger] names[i]) == lowered(name)
}

/// The sorted names with one more; a name known up to ASCII case is not added.
pub open spec fn remembered(names: Seq<Seq<char>>, name: Seq<char>) -> Seq<Seq<char>> {
    if name.len() == 0 || knows(names, name) {
        names
    } else {
        names.insert(place_for(names, name, 0), name)
    }
}

proof fn lemma_place_for(names: Seq<Seq<char>>, name: Seq<char>, i: int, k: int)
    requires
        0 <= i <= k <= names.len(),
        forall|j: int| i <= j < k ==> before_ignoring_case(#[trigger] names[j], name),
        k < names.len() ==> !before_ignoring_case(names[k], name),
    ensures
        place_for(names, name, i) == k,
    decreases k - i,
{
    if i < k {
        assert(before_ignoring_case(names[i], name));
        lemma_place_for(names, name, i + 1, k);
    }
}

proof fn lemma_place_bounds(names: Seq<Seq<char>>, name: Seq<char>, i: int)
    requires
        0 <= i <= names.len(),
    ensures
        i <= place_for(names, name, i) <= names.len(),
        forall|j: int|
            i <= j < place_for(names, name, i) ==> before_ignoring_case(#[trigger] names[j], name),
        place_for(names, name, i) < names.len() ==> !before_ignoring_case(
            names[place_for(names, name, i)],
            name,
        ),
    decreases names.len() - i,
{
    if i < names.len() && before_ignoring_case(names[i], name) {
        lemma_place_bounds(names, name, i + 1);
    }
}

/// Adding a name keeps the names sorted, and adds that name alone.
pub proof fn law_remembering_keeps_order(names: Seq<Seq<char>>, name: Seq<char>)
    requires
        is_sorted(names),
    ensures
        is_sorted(remembered(names, name)),
        name.len() > 0 ==> knows(remembered(names, name), name),
        forall|other: Seq<char>|
            #[trigger] remembered(names, name).contains(other) ==> names.contains(other) || other
                == name,
        forall|other: Seq<char>|
            names.contains(other) ==> #[trigger] remembered(names, name).contains(other),
{
    let out = remembered(names, name);
    if name.len() > 0 && !knows(names, name) {
        let k = place_for(names, name, 0);
        lemma_place_bounds(names, name, 0);
        assert forall|i: int, j: int| 0 <= i < j < out.len() implies before_ignoring_case(
            #[trigger] out[i],
            #[trigger] out[j],
        ) by {
            if i == k {
                let later = names[j - 1];
                assert(out[j] == later);
                law_dictionary_order(lowered(name), lowered(names[k]), lowered(later));
                assert(lowered(names[k]) != lowered(name));
                if j - 1 > k {
                    assert(before_ignoring_case(names[k], names[j - 1]));
                }
            } else if j == k {
                assert(out[i] == names[i]);
            } else {
                let a = if i < k { i } else { i - 1 };
                let b = if j < k { j } else { j - 1 };
                assert(out[i] == names[a]);
                assert(out[j] == names[b]);
            }
        }
        assert(out[k] == name);
        assert forall|other: Seq<char>| #[trigger] out.contains(other) implies names.contains(other)
            || other == name by {
            let i = choose|i: int| 0 <= i < out.len() && out[i] == other;
            if i < k {
                assert(names[i] == other);
            } else if i > k {
                assert(names[i - 1] == other);
            }
        }
        assert forall|other: Seq<char>| names.contains(other) implies #[trigger] out.contains(
            other,
        ) by {
            let i = choose|i: int| 0 <= i < names.len() && names[i] == other;
            if i < k {
                assert(out[i] == other);
            } else {
                assert(out[i + 1] == other);
            }
        }
    }
}

/// The place for a name among sorted names, by halving.
fn partition_place(names: &[String], name: &str) -> (k: usize)
    requires
        is_sorted(texts(names@)),
    ensures
        k == place_for(texts(names@), name@, 0),
        k <= names@.len(),
{
    let ghost all = texts(names@);
    let mut low: usize = 0;
    let mut high: usize = names.len();
    while low < high
        invariant
            low <= high <= names@.len(),
            all == texts(names@),
            is_sorted(all),
            forall|j: int| 0 <= j < low ==> before_ignoring_case(#[trigger] all[j], name@),
            forall|j: int| high <= j < all.len() ==> !before_ignoring_case(#[trigger] all[j], name@),
        decreases high - low,
    {
        let mid: usize = low + (high - low) / 2;
        proof {
            assert(all[mid as int] == names@[mid as int]@);
        }
        if orders_before(&names[mid], name) {
            proof {
                assert forall|j: int| 0 <= j < mid + 1 implies before_ignoring_case(
                    #[trigger] all[j],
                    name@,
                ) by {
                    if j < mid {
                        assert(before_ignoring_case(all[j], all[mid as int]));
                        law_dictionary_order(
                            lowered(all[j]),
                            lowered(all[mid as int]),
                            lowered(name@),
                        );
                    }
                }
            }
            low = mid + 1;
        } else {
            proof {
                assert forall|j: int| mid <= j < all.len() implies !before_ignoring_case(
                    #[trigger] all[j],
                    name@,
                ) by {
                    if j > mid {
                        assert(before_ignoring_case(all[mid as int], all[j]));
                        law_dictionary_order(
                            lowered(all[mid as int]),
                            lowered(all[j]),
                            lowered(name@),
                        );
                    }
                }
            }
            high = mid;
        }
    }
    proof {
        lemma_place_for(all, name@, 0, low as int);
    }
    low
}

/// Whether `left` comes before `right` up to ASCII case.
fn orders_before(left: &str, right: &str) -> (yes: bool)
    ensures
        yes == before_ignoring_case(left@, right@),
{
    match cmp_ignore_ascii_case(left, right) {
        std::cmp::Ordering::Less => true,
        _ => false,
    }
}

/// In a sorted list a name known up to ASCII case stands at its place.
proof fn lemma_known_at_place(names: Seq<Seq<char>>, name: Seq<char>)
    requires
        is_sorted(names),
    ensures
        ({
            let k = place_for(names, name, 0);
            0 <= k <= names.len() && (knows(names, name) <==> k < names.len() && lowered(names[k])
                == lowered(name))
        }),
{
    let k = place_for(names, name, 0);
    lemma_place_bounds(names, name, 0);
    if knows(names, name) {
        let i = choose|i: int| 0 <= i < names.len() && lowered(#[trigger] names[i]) == lowered(name);
        law_dictionary_order(lowered(names[i]), lowered(name), lowered(name));
        assert(i >= k);
        if i > k {
            assert(before_ignoring_case(names[k], names[i]));
        }
    } else if k < names.len() && lowered(names[k]) == lowered(name) {
        assert(lowered(names[k]) == lowered(name));
    }
}

// ---------------------------------------------------------------------------
// Files
// ---------------------------------------------------------------------------
/// The place of a name among the known files, from `from` on.
pub open spec fn file_at(
    files: Seq<(Seq<char>, Seq<char>)>,
    name: Seq<char>,
    from: int,
) -> Option<int>
    decreases files.len() - from,
{
    if from < 0 || from >= files.len() {
        None
    } else if files[from].0 == name {
        Some(from)
    } else {
        file_at(files, name, from + 1)
    }
}

/// The file of a command.
pub open spec fn file_of(files: Seq<(Seq<char>, Seq<char>)>, name: Seq<char>) -> Option<
    Seq<char>,
> {
    match file_at(files, name, 0) {
        Some(i) => Some(files[i].1),
        None => None,
    }
}

// ---------------------------------------------------------------------------
// Specs in memory
// ---------------------------------------------------------------------------
/// The place of a name in a list of names, from `from` on.
pub open spec fn name_at(names: Seq<Seq<char>>, name: Seq<char>, from: int) -> Option<int>
    decreases names.len() - from,
{
    if from < 0 || from >= names.len() {
        None
    } else if names[from] == name {
        Some(from)
    } else {
        name_at(names, name, from + 1)
    }
}

/// The place of the spec that has a name, from `from` on.
pub open spec fn entry_at(entries: Seq<Entry>, name: Seq<char>, from: int) -> Option<int>
    decreases entries.len() - from,
{
    if from < 0 || from >= entries.len() {
        None
    } else if entries[from].names.contains(name) {
        Some(from)
    } else {
        entry_at(entries, name, from + 1)
    }
}

/// The spec in memory under a name.
pub open spec fn cached(entries: Seq<Entry>, name: Seq<char>) -> Option<Arc<Spec>> {
    match entry_at(entries, name, 0) {
        Some(i) => Some(entries[i].spec),
        None => None,
    }
}

/// The names without one of them.
pub open spec fn without(names: Seq<Seq<char>>, name: Seq<char>) -> Seq<Seq<char>> {
    match name_at(names, name, 0) {
        Some(i) => names.remove(i),
        None => names,
    }
}

/// The entries with a name taken from whichever has it.
pub open spec fn unnamed(entries: Seq<Entry>, name: Seq<char>) -> Seq<Entry> {
    Seq::new(
        entries.len(),
        |i: int| Entry { spec: entries[i].spec, names: without(entries[i].names, name) },
    )
}

/// The entries with one moved behind the others.
pub open spec fn touched(entries: Seq<Entry>, i: int) -> Seq<Entry> {
    entries.remove(i).push(entries[i])
}

/// The entries without the oldest that still has a name, and without those
/// before it.
pub open spec fn evicted(entries: Seq<Entry>) -> Seq<Entry>
    decreases entries.len(),
{
    if entries.len() == 0 {
        entries
    } else if entries[0].names.len() > 0 {
        entries.skip(1)
    } else {
        evicted(entries.skip(1))
    }
}

/// Whether a spec read from `path`, or given directly, may answer to a name.
pub open spec fn may_answer(
    files: Seq<(Seq<char>, Seq<char>)>,
    has_map: bool,
    path: Option<Seq<char>>,
    name: Seq<char>,
) -> bool {
    &&& name.len() > 0
    &&& path matches Some(p) ==> match file_of(files, name) {
        None => !has_map,
        Some(known) => is_same_path(known, p),
    }
}

/// The registry with a name taken over by a spec that is being added.
pub open spec fn claimed(r: RegistryView, name: Seq<char>) -> RegistryView {
    RegistryView { entries: unnamed(r.entries, name), names: remembered(r.names, name), ..r }
}

/// The registry after a spec being added has claimed what it may of its
/// names, and the names that it got.
pub open spec fn claims(r: RegistryView, list: Seq<Seq<char>>, path: Option<Seq<char>>) -> (
    RegistryView,
    Seq<Seq<char>>,
)
    decreases list.len(),
{
    if list.len() == 0 {
        (r, Seq::empty())
    } else {
        let (done, got) = claims(r, list.drop_last(), path);
        let name = list.last();
        if may_answer(r.files, r.has_map, path, name) {
            (
                claimed(done, name),
                if got.contains(name) {
                    got
                } else {
                    got.push(name)
                },
            )
        } else {
            (done, got)
        }
    }
}

/// The registry with one more spec, the most recently used.
pub open spec fn inserted(
    r: RegistryView,
    spec: Arc<Spec>,
    path: Option<Seq<char>>,
) -> RegistryView {
    let (done, got) = claims(r, texts(spec.names@), path);
    RegistryView { entries: done.entries.push(Entry { spec, names: got }), ..done }
}

/// The registry with one more file; a name that has one keeps it.
pub open spec fn filed(r: RegistryView, name: Seq<char>, path: Seq<char>) -> RegistryView {
    if file_of(r.files, name) is Some {
        r
    } else {
        RegistryView {
            files: r.files.push((name, path)),
            names: remembered(r.names, name),
            ..r
        }
    }
}

/// The registry with one more file for each non-empty name.
pub open spec fn all_filed(r: RegistryView, list: Seq<Seq<char>>, path: Seq<char>) -> RegistryView
    decreases list.len(),
{
    if list.len() == 0 {
        r
    } else {
        let done = all_filed(r, list.drop_last(), path);
        if list.last().len() > 0 {
            filed(done, list.last(), path)
        } else {
            done
        }
    }
}

/// Whether no name belongs to two entries or occurs twice.
pub open spec fn names_distinct(entries: Seq<Entry>) -> bool {
    &&& forall|i: int, a: int, b: int|
        #![trigger entries[i].names[a], entries[i].names[b]]
        0 <= i < entries.len() && 0 <= a < b < entries[i].names.len() ==> entries[i].names[a]
            != entries[i].names[b]
    &&& forall|i: int, j: int, name: Seq<char>|
        #![trigger entries[i].names.contains(name), entries[j].names.contains(name)]
        0 <= i < j < entries.len() ==> !(entries[i].names.contains(name)
            && entries[j].names.contains(name))
}

/// Whether no name has two files.
pub open spec fn files_distinct(files: Seq<(Seq<char>, Seq<char>)>) -> bool {
    forall|i: int, j: int| 0 <= i < j < files.len() ==> files[i].0 != files[j].0
}

impl RegistryView {
    /// What holds of every registry.
    pub open spec fn valid(self) -> bool {
        &&& is_sorted(self.names)
        &&& names_distinct(self.entries)
        &&& files_distinct(self.files)
    }
}

proof fn lemma_name_at(names: Seq<Seq<char>>, name: Seq<char>, from: int)
    requires
        0 <= from <= names.len(),
    ensures
        match name_at(names, name, from) {
            Some(i) => from <= i < names.len() && names[i] == name,
            None => forall|i: int| from <= i < names.len() ==> names[i] != name,
        },
    decreases names.len() - from,
{
    if from < names.len() && names[from] != name {
        lemma_name_at(names, name, from + 1);
    }
}

proof fn lemma_entry_at(entries: Seq<Entry>, name: Seq<char>, from: int)
    requires
        0 <= from <= entries.len(),
    ensures
        match entry_at(entries, name, from) {
            Some(i) => from <= i < entries.len() && entries[i].names.contains(name),
            None => forall|i: int|
                from <= i < entries.len() ==> !(#[trigger] entries[i]).names.contains(name),
        },
    decreases entries.len() - from,
{
    if from < entries.len() && !entries[from].names.contains(name) {
        lemma_entry_at(entries, name, from + 1);
    }
}

proof fn lemma_file_at(files: Seq<(Seq<char>, Seq<char>)>, name: Seq<char>, from: int)
    requires
        0 <= from <= files.len(),
    ensures
        match file_at(files, name, from) {
            Some(i) => from <= i < files.len() && files[i].0 == name,
            None => forall|i: int| from <= i < files.len() ==> (#[trigger] files[i]).0 != name,
        },
    decreases files.len() - from,
{
    if from < files.len() && files[from].0 != name {
        lemma_file_at(files, name, from + 1);
    }
}

/// Taking a name away leaves the others where they were.
proof fn lemma_without(names: Seq<Seq<char>>, name: Seq<char>, other: Seq<char>)
    requires
        forall|a: int, b: int| 0 <= a < b < names.len() ==> names[a] != names[b],
    ensures
        without(names, name).contains(other) <==> names.contains(other) && other != name,
        forall|a: int, b: int|
            0 <= a < b < without(names, name).len() ==> without(names, name)[a] != without(
                names,
                name,
            )[b],
{
    lemma_name_at(names, name, 0);
    let out = without(names, name);
    if let Some(k) = name_at(names, name, 0) {
        assert forall|a: int, b: int| 0 <= a < b < out.len() implies out[a] != out[b] by {
            let x = if a < k { a } else { a + 1 };
            let y = if b < k { b } else { b + 1 };
            assert(out[a] == names[x]);
            assert(out[b] == names[y]);
        }
        if names.contains(other) && other != name {
            let i = choose|i: int| 0 <= i < names.len() && names[i] == other;
            if i < k {
                assert(out[i] == other);
            } else {
                assert(out[i - 1] == other);
            }
        }
        if out.contains(other) {
            let i = choose|i: int| 0 <= i < out.len() && out[i] == other;
            let x = if i < k { i } else { i + 1 };
            assert(names[x] == other);
            assert(names[x] != names[k]);
        }
    }
}

proof fn lemma_unnamed(entries: Seq<Entry>, name: Seq<char>)
    requires
        names_distinct(entries),
    ensures
        names_distinct(unnamed(entries, name)),
        forall|i: int, other: Seq<char>|
            #![trigger unnamed(entries, name)[i].names.contains(other)]
            0 <= i < entries.len() ==> (unnamed(entries, name)[i].names.contains(other)
                <==> entries[i].names.contains(other) && other != name),
{
    let out = unnamed(entries, name);
    assert forall|i: int, other: Seq<char>|
        #![trigger out[i].names.contains(other)]
        0 <= i < entries.len() implies (out[i].names.contains(other)
        <==> entries[i].names.contains(other) && other != name) by {
        lemma_without(entries[i].names, name, other);
    }
    assert forall|i: int, a: int, b: int|
        #![trigger out[i].names[a], out[i].names[b]]
        0 <= i < out.len() && 0 <= a < b < out[i].names.len() implies out[i].names[a]
        != out[i].names[b] by {
        lemma_without(entries[i].names, name, name);
    }
    assert forall|i: int, j: int, other: Seq<char>|
        #![trigger out[i].names.contains(other), out[j].names.contains(other)]
        0 <= i < j < out.len() implies !(out[i].names.contains(other)
        && out[j].names.contains(other)) by {
        assert(out[i].names.contains(other) ==> entries[i].names.contains(other));
        assert(out[j].names.contains(other) ==> entries[j].names.contains(other));
    }
}

/// What claiming names leaves: a valid registry in which no older spec answers
/// to a claimed name and every other name is answered as before.
proof fn lemma_claims(r: RegistryView, list: Seq<Seq<char>>, path: Option<Seq<char>>)
    requires
        r.valid(),
    ensures
        ({
            let (done, got) = claims(r, list, path);
            &&& done.valid()
            &&& done.files == r.files
            &&& done.has_map == r.has_map
            &&& done.root == r.root
            &&& done.entries.len() == r.entries.len()
            &&& forall|i: int|
                0 <= i < r.entries.len() ==> (#[trigger] done.entries[i]).spec == r.entries[i].spec
            &&& forall|i: int, other: Seq<char>|
                #![trigger done.entries[i].names.contains(other)]
                0 <= i < r.entries.len() ==> (done.entries[i].names.contains(other)
                    <==> r.entries[i].names.contains(other) && !got.contains(other))
            &&& forall|a: int, b: int| 0 <= a < b < got.len() ==> got[a] != got[b]
            &&& forall|other: Seq<char>| #[trigger]
                got.contains(other) <==> list.contains(other) && may_answer(
                    r.files,
                    r.has_map,
                    path,
                    other,
                )
        }),
    decreases list.len(),
{
    if list.len() > 0 {
        let rest = list.drop_last();
        lemma_claims(r, rest, path);
        let (before_it, got_before) = claims(r, rest, path);
        let (done, got) = claims(r, list, path);
        let name = list.last();
        lemma_unnamed(before_it.entries, name);
        law_remembering_keeps_order(before_it.names, name);
        assert forall|other: Seq<char>| list.contains(other) <==> rest.contains(other) || other
            == name by {
            if list.contains(other) {
                let i = choose|i: int| 0 <= i < list.len() && list[i] == other;
                if i < rest.len() {
                    assert(rest[i] == other);
                }
            }
            if rest.contains(other) {
                let i = choose|i: int| 0 <= i < rest.len() && rest[i] == other;
                assert(list[i] == other);
            }
            assert(list[list.len() - 1] == name);
        }
        assert forall|other: Seq<char>| #[trigger] got.contains(other) <==> list.contains(other)
            && may_answer(r.files, r.has_map, path, other) by {
            if may_answer(r.files, r.has_map, path, name) && !got_before.contains(name) {
                assert(got == got_before.push(name));
                if got.contains(other) {
                    let i = choose|i: int| 0 <= i < got.len() && got[i] == other;
                    if i < got_before.len() {
                        assert(got_before[i] == other);
                    }
                }
                if got_before.contains(other) {
                    let i = choose|i: int| 0 <= i < got_before.len() && got_before[i] == other;
                    assert(got[i] == other);
                }
                assert(got[got_before.len() as int] == name);
            }
        }
    }
}

/// A spec that is added answers to the names it may have, and every other name
/// is answered as before.
pub proof fn law_insert_answers_its_names(
    r: RegistryView,
    spec: Arc<Spec>,
    path: Option<Seq<char>>,
    name: Seq<char>,
)
    requires
        r.valid(),
    ensures
        inserted(r, spec, path).valid(),
        cached(inserted(r, spec, path).entries, name) == if texts(spec.names@).contains(name)
            && may_answer(r.files, r.has_map, path, name) {
            Some(spec)
        } else {
            cached(r.entries, name)
        },
{
    let list = texts(spec.names@);
    lemma_claims(r, list, path);
    let (done, got) = claims(r, list, path);
    let out = inserted(r, spec, path).entries;
    let n = r.entries.len() as int;
    assert(out[n] == Entry { spec, names: got });
    assert forall|i: int, j: int, other: Seq<char>|
        #![trigger out[i].names.contains(other), out[j].names.contains(other)]
        0 <= i < j < out.len() implies !(out[i].names.contains(other)
        && out[j].names.contains(other)) by {
        assert(out[i] == done.entries[i]);
        if j < n {
            assert(out[j] == done.entries[j]);
        }
    }
    lemma_entry_at(out, name, 0);
    lemma_entry_at(r.entries, name, 0);
    if got.contains(name) {
        assert(out[n].names.contains(name));
        let i = entry_at(out, name, 0)->Some_0;
        if i < n {
            assert(out[i] == done.entries[i]);
        }
    } else {
        match entry_at(r.entries, name, 0) {
            Some(k) => {
                assert(done.entries[k].names.contains(name));
                assert(out[k].names.contains(name));
                let i = entry_at(out, name, 0)->Some_0;
                assert(i != n);
                assert(out[i] == done.entries[i]);
                if i < k {
                    assert(r.entries[i].names.contains(name) && r.entries[k].names.contains(name));
                } else if k < i {
                    assert(r.entries[k].names.contains(name) && r.entries[i].names.contains(name));
                }
            },
            None => {
                if let Some(i) = entry_at(out, name, 0) {
                    assert(out[i] == done.entries[i]);
                    assert(r.entries[i].names.contains(name));
                }
            },
        }
    }
}

/// Moving a spec behind the others changes no answer.
pub proof fn law_touching_keeps_answers(entries: Seq<Entry>, k: int, name: Seq<char>)
    requires
        names_distinct(entries),
        0 <= k < entries.len(),
    ensures
        names_distinct(touched(entries, k)),
        cached(touched(entries, k), name) == cached(entries, name),
{
    let out = touched(entries, k);
    let n = entries.len() as int;
    assert forall|i: int| 0 <= i < n implies #[trigger] out[i] == entries[moved(i, k, n)] by {}
    assert forall|i: int, a: int, b: int|
        #![trigger out[i].names[a], out[i].names[b]]
        0 <= i < out.len() && 0 <= a < b < out[i].names.len() implies out[i].names[a]
        != out[i].names[b] by {
        assert(out[i] == entries[moved(i, k, n)]);
    }
    assert forall|i: int, j: int, other: Seq<char>|
        #![trigger out[i].names.contains(other), out[j].names.contains(other)]
        0 <= i < j < out.len() implies !(out[i].names.contains(other)
        && out[j].names.contains(other)) by {
        let x = moved(i, k, n);
        let y = moved(j, k, n);
        assert(out[i] == entries[x]);
        assert(out[j] == entries[y]);
        assert(x != y);
        if x < y {
            assert(!(entries[x].names.contains(other) && entries[y].names.contains(other)));
        } else {
            assert(!(entries[y].names.contains(other) && entries[x].names.contains(other)));
        }
    }
    lemma_entry_at(entries, name, 0);
    lemma_entry_at(out, name, 0);
    if let Some(i) = entry_at(entries, name, 0) {
        let back = if i < k {
            i
        } else if i == k {
            n - 1
        } else {
            i - 1
        };
        assert(out[back] == entries[i]);
        assert(out[back].names.contains(name));
        let found = entry_at(out, name, 0)->Some_0;
        assert(out[found].names.contains(name));
        if found < back {
            assert(!(out[found].names.contains(name) && out[back].names.contains(name)));
        } else if back < found {
            assert(!(out[back].names.contains(name) && out[found].names.contains(name)));
        }
    } else if let Some(j) = entry_at(out, name, 0) {
        assert(out[j] == entries[moved(j, k, n)]);
    }
}

/// Where the element at `i` stood before the one at `k` moved to the end.
spec fn moved(i: int, k: int, n: int) -> int {
    if i < k {
        i
    } else if i == n - 1 {
        k
    } else {
        i + 1
    }
}

proof fn lemma_tail_distinct(entries: Seq<Entry>)
    requires
        names_distinct(entries),
        entries.len() > 0,
    ensures
        names_distinct(entries.skip(1)),
{
    let out = entries.skip(1);
    assert forall|i: int, a: int, b: int|
        #![trigger out[i].names[a], out[i].names[b]]
        0 <= i < out.len() && 0 <= a < b < out[i].names.len() implies out[i].names[a]
        != out[i].names[b] by {
        assert(out[i] == entries[i + 1]);
    }
    assert forall|i: int, j: int, other: Seq<char>|
        #![trigger out[i].names.contains(other), out[j].names.contains(other)]
        0 <= i < j < out.len() implies !(out[i].names.contains(other)
        && out[j].names.contains(other)) by {
        assert(out[i] == entries[i + 1]);
        assert(out[j] == entries[j + 1]);
    }
}

proof fn lemma_evicted_distinct(entries: Seq<Entry>)
    requires
        names_distinct(entries),
    ensures
        names_distinct(evicted(entries)),
        evicted(entries).len() <= entries.len(),
    decreases entries.len(),
{
    if entries.len() > 0 {
        lemma_tail_distinct(entries);
        if entries[0].names.len() == 0 {
            lemma_evicted_distinct(entries.skip(1));
        }
    }
}

/// Making room drops the least recently used spec that has a name and no spec
/// behind it.
pub proof fn law_eviction_drops_the_oldest(entries: Seq<Entry>, k: int)
    requires
        0 <= k < entries.len(),
        entries[k].names.len() > 0,
        forall|i: int| 0 <= i < k ==> (#[trigger] entries[i]).names.len() == 0,
    ensures
        evicted(entries) == entries.skip(k + 1),
    decreases k,
{
    if k > 0 {
        let rest = entries.skip(1);
        assert forall|i: int| 0 <= i < k - 1 implies (#[trigger] rest[i]).names.len() == 0 by {
            assert(rest[i] == entries[i + 1]);
        }
        assert(rest[k - 1] == entries[k]);
        law_eviction_drops_the_oldest(rest, k - 1);
        assert(rest.skip(k) =~= entries.skip(k + 1));
    }
}

proof fn lemma_filed_valid(r: RegistryView, name: Seq<char>, path: Seq<char>)
    requires
        r.valid(),
    ensures
        filed(r, name, path).valid(),
{
    lemma_file_at(r.files, name, 0);
    law_remembering_keeps_order(r.names, name);
}

proof fn lemma_all_filed_valid(r: RegistryView, list: Seq<Seq<char>>, path: Seq<char>)
    requires
        r.valid(),
    ensures
        all_filed(r, list, path).valid(),
        all_filed(r, list, path).entries == r.entries,
        all_filed(r, list, path).has_map == r.has_map,
    decreases list.len(),
{
    if list.len() > 0 {
        lemma_all_filed_valid(r, list.drop_last(), path);
        lemma_filed_valid(all_filed(r, list.drop_last(), path), list.last(), path);
    }
}

// ---------------------------------------------------------------------------
// Names that match
// ---------------------------------------------------------------------------
/// Up to `room` of the names from `i` on that match the query fuzzily and are
/// not the query itself.
pub open spec fn fuzzy_names(
    names: Seq<Seq<char>>,
    query: Seq<char>,
    i: int,
    room: int,
) -> Seq<Seq<char>>
    decreases names.len() - i,
{
    if i < 0 || i >= names.len() || room <= 0 {
        Seq::empty()
    } else if lowered(names[i]) != lowered(query) && is_match(names[i], query, true) {
        seq![names[i]] + fuzzy_names(names, query, i + 1, room - 1)
    } else {
        fuzzy_names(names, query, i + 1, room)
    }
}

/// Up to `room` of the names from `i` on, as long as they begin with the query
/// up to case, without the query itself.
pub open spec fn prefix_names(
    names: Seq<Seq<char>>,
    query: Seq<char>,
    i: int,
    room: int,
) -> Seq<Seq<char>>
    decreases names.len() - i,
{
    if i < 0 || i >= names.len() || room <= 0 || !begins_with(
        lowercase(names[i]),
        lowercase(query),
    ) {
        Seq::empty()
    } else if lowered(names[i]) == lowered(query) {
        prefix_names(names, query, i + 1, room)
    } else {
        seq![names[i]] + prefix_names(names, query, i + 1, room - 1)
    }
}

/// The command names offered for a query, without the query itself.
pub open spec fn names_matching(
    names: Seq<Seq<char>>,
    query: Seq<char>,
    fuzzy: bool,
) -> Seq<Seq<char>> {
    let room = MAX_NAME_MATCHES as int;
    if query.len() == 0 {
        if names.len() < room {
            names
        } else {
            names.take(room)
        }
    } else if fuzzy {
        fuzzy_names(names, query, 0, room)
    } else {
        prefix_names(names, query, place_for(names, query, 0), room)
    }
}

/// The first name that is the query up to ASCII case, from `i` on.
pub open spec fn exact_name(names: Seq<Seq<char>>, query: Seq<char>, i: int) -> Option<Seq<char>>
    decreases names.len() - i,
{
    if i < 0 || i >= names.len() {
        None
    } else if lowered(names[i]) == lowered(query) {
        Some(names[i])
    } else {
        exact_name(names, query, i + 1)
    }
}

/// The command names offered for a query, the query itself first.
pub open spec fn names_with_exact(
    names: Seq<Seq<char>>,
    query: Seq<char>,
    fuzzy: bool,
) -> Seq<Seq<char>> {
    let others = names_matching(names, query, fuzzy);
    match exact_name(names, query, 0) {
        Some(name) => if query.len() > 0 {
            others.insert(0, name)
        } else {
            others
        },
        None => others,
    }
}

/// Names with their descriptions, which are empty.
pub open spec fn plain_pairs(pairs: Seq<(String, String)>) -> Seq<Seq<char>> {
    Seq::new(pairs.len(), |i: int| pairs[i].0@)
}

/// Whether no pair has a description.
pub open spec fn undescribed(pairs: Seq<(String, String)>) -> bool {
    forall|i: int| 0 <= i < pairs.len() ==> (#[trigger] pairs[i]).1@ == Seq::<char>::empty()
}

impl Registry {
    /// A registry without commands.
    pub fn new() -> (registry: Registry)
        ensures
            registry@.valid(),
            registry@.entries.len() == 0,
            registry@.files.len() == 0,
            registry@.names.len() == 0,
            registry@.root.len() == 0,
            !registry@.has_map,
    {
        Registry::with_root(String::new(), false)
    }

    /// A registry for the spec files under a directory, without commands yet.
    pub fn with_root(root: String, has_command_file_map: bool) -> (registry: Registry)
        ensures
            registry@.valid(),
            registry@.entries.len() == 0,
            registry@.files.len() == 0,
            registry@.names.len() == 0,
            registry@.root == root@,
            registry@.has_map == has_command_file_map,
    {
        Registry {
            loaded: Vec::new(),
            files: Vec::new(),
            root,
            has_command_file_map,
            names: Vec::new(),
        }
    }

    /// The directory of the spec files.
    pub fn root(&self) -> (root: &str)
        ensures
            root@ == self@.root,
    {
        self.root.as_str()
    }

    /// Whether the command names come from an index.
    pub fn has_command_file_map(&self) -> (yes: bool)
        ensures
            yes == self@.has_map,
    {
        self.has_command_file_map
    }

    /// Adds a command name to the sorted names.
    fn remember_name(&mut self, name: &str)
        requires
            is_sorted(old(self)@.names),
        ensures
            final(self)@ == (RegistryView {
                names: remembered(old(self)@.names, name@),
                ..old(self)@
            }),
    {
        if name.is_empty() {
            return;
        }
        let k = partition_place(&self.names, name);
        proof {
            lemma_known_at_place(self@.names, name@);
            if k < self.names@.len() {
                assert(texts(self.names@)[k as int] == self.names@[k as int]@);
            }
        }
        if k < self.names.len() && same_ignoring_case(&self.names[k], name) {
            return;
        }
        self.names.insert(k, name.to_owned());
        proof {
            assert(texts(self.names@) =~= old(self)@.names.insert(k as int, name@));
            assert(self@.entries =~= old(self)@.entries);
            assert(self@.files =~= old(self)@.files);
        }
    }

    /// The place of a name among the files.
    fn file_place(&self, name: &str) -> (found: Option<usize>)
        ensures
            match found {
                Some(i) => file_at(self@.files, name@, 0) == Some(i as int) && i
                    < self.files@.len(),
                None => file_at(self@.files, name@, 0) is None,
            },
    {
        let mut i: usize = 0;
        while i < self.files.len()
            invariant
                i <= self.files@.len(),
                file_at(self@.files, name@, 0) == file_at(self@.files, name@, i as int),
            decreases self.files@.len() - i,
        {
            if same(&self.files[i].0, name) {
                return Some(i);
            }
            i += 1;
        }
        None
    }

    /// The file that holds the spec of a command.
    pub fn file_path(&self, name: &str) -> (path: Option<&str>)
        ensures
            crate::text::opt_str(path) == file_of(self@.files, name@),
    {
        match self.file_place(name) {
            Some(i) => Some(self.files[i].1.as_str()),
            None => None,
        }
    }

    /// Records the file of a command, unless the command has one.
    pub fn remember_file(&mut self, name: &str, path: &str)
        requires
            old(self)@.valid(),
        ensures
            final(self)@ == filed(old(self)@, name@, path@),
            final(self)@.valid(),
    {
        proof {
            lemma_filed_valid(self@, name@, path@);
        }
        if self.file_place(name).is_some() {
            return;
        }
        let ghost before_it = self@;
        self.files.push((name.to_owned(), path.to_owned()));
        proof {
            assert(self@.files =~= before_it.files.push((name@, path@)));
            assert(self@.entries =~= before_it.entries);
        }
        self.remember_name(name);
    }

    /// Records a spec file under its key without offering it as a command yet,
    /// unless the key has a file.
    pub fn add_file(&mut self, key: &str, path: &str)
        requires
            old(self)@.valid(),
        ensures
            final(self)@ == (RegistryView {
                files: if file_of(old(self)@.files, key@) is Some {
                    old(self)@.files
                } else {
                    old(self)@.files.push((key@, path@))
                },
                ..old(self)@
            }),
            final(self)@.valid(),
    {
        proof {
            lemma_file_at(self@.files, key@, 0);
        }
        if self.file_place(key).is_some() {
            return;
        }
        let ghost before_it = self@;
        self.files.push((key.to_owned(), path.to_owned()));
        proof {
            assert(self@.files =~= before_it.files.push((key@, path@)));
            assert(self@.entries =~= before_it.entries);
        }
    }

    /// Offers exactly the commands that have files.
    pub fn rebuild_names(&mut self)
        requires
            old(self)@.valid(),
        ensures
            final(self)@ == (RegistryView {
                names: names_of_files(old(self)@.files, old(self)@.files.len() as int),
                ..old(self)@
            }),
            final(self)@.valid(),
    {
        let ghost start = self@;
        self.names = Vec::new();
        let mut i: usize = 0;
        proof {
            assert(self@.names =~= Seq::<Seq<char>>::empty());
            assert(self@.entries =~= start.entries);
            assert(self@.files =~= start.files);
        }
        let n = self.files.len();
        while i < n
            invariant
                i <= n,
                n == self@.files.len(),
                n == self.files@.len(),
                start.valid(),
                self@ == (RegistryView { names: names_of_files(start.files, i as int), ..start }),
                is_sorted(self@.names),
            decreases n - i,
        {
            let name = self.files[i].0.clone();
            proof {
                law_remembering_keeps_order(self@.names, name@);
                assert(start.files[i as int].0 == name@);
            }
            self.remember_name(&name);
            proof {
                assert(self@.files.len() == self.files@.len());
            }
            i += 1;
        }
    }

    /// Takes a name from whichever spec has it.
    fn drop_name(&mut self, name: &str)
        ensures
            final(self)@ == (RegistryView {
                entries: unnamed(old(self)@.entries, name@),
                ..old(self)@
            }),
    {
        let ghost start = *self;
        let mut i: usize = 0;
        while i < self.loaded.len()
            invariant
                i <= self.loaded@.len() == start.loaded@.len(),
                self.files == start.files,
                self.root == start.root,
                self.has_command_file_map == start.has_command_file_map,
                self.names == start.names,
                forall|k: int|
                    0 <= k < i ==> (#[trigger] self.loaded@[k])@ == (Entry {
                        spec: start.loaded@[k].spec,
                        names: without(start.loaded@[k]@.names, name@),
                    }),
                forall|k: int|
                    i <= k < self.loaded@.len() ==> #[trigger] self.loaded@[k] == start.loaded@[k],
            decreases self.loaded@.len() - i,
        {
            let ghost list = texts(self.loaded@[i as int].names@);
            let mut j: usize = 0;
            let count = self.loaded[i].names.len();
            while j < count && !same(&self.loaded[i].names[j], name)
                invariant
                    i < self.loaded@.len(),
                    j <= count,
                    count == self.loaded@[i as int].names@.len(),
                    list == texts(self.loaded@[i as int].names@),
                    name_at(list, name@, 0) == name_at(list, name@, j as int),
                decreases count - j,
            {
                j += 1;
            }
            if j < count {
                let _ = self.loaded[i].names.remove(j);
                proof {
                    assert(texts(self.loaded@[i as int].names@) =~= list.remove(j as int));
                }
            }
            i += 1;
        }
        proof {
            assert(self@.entries =~= unnamed(start@.entries, name@));
            assert(self@.files =~= start@.files);
        }
    }

    /// Whether a spec read from `path`, or given directly, may answer to a
    /// name.
    fn may_answer(&self, path: Option<&str>, name: &str) -> (yes: bool)
        ensures
            yes == may_answer(self@.files, self@.has_map, crate::text::opt_str(path), name@),
    {
        if name.is_empty() {
            return false;
        }
        match path {
            None => true,
            Some(path) => match self.file_path(name) {
                None => !self.has_command_file_map,
                Some(known) => same_path(known, path),
            },
        }
    }

    /// Adds a spec as the most recently used.
    fn insert_loaded(&mut self, spec: Spec, path: Option<&str>)
        requires
            old(self)@.valid(),
        ensures
            final(self)@ == inserted(old(self)@, Arc::new(spec), crate::text::opt_str(path)),
            final(self)@.valid(),
    {
        let ghost start = self@;
        let ghost way = crate::text::opt_str(path);
        let shared = Arc::new(spec);
        let ghost list = texts(shared.names@);
        let mut got: Vec<String> = Vec::new();
        let mut i: usize = 0;
        proof {
            assert(list.take(0) =~= Seq::<Seq<char>>::empty());
            assert(texts(got@) =~= Seq::<Seq<char>>::empty());
            law_insert_answers_its_names(start, shared, way, Seq::empty());
        }
        while i < shared.names.len()
            invariant
                i <= shared.names@.len(),
                start.valid(),
                list == texts(shared.names@),
                way == crate::text::opt_str(path),
                (self@, texts(got@)) == claims(start, list.take(i as int), way),
            decreases shared.names@.len() - i,
        {
            proof {
                lemma_claims(start, list.take(i as int), way);
                assert(list.take(i + 1).drop_last() =~= list.take(i as int));
                assert(list.take(i + 1).last() == shared.names@[i as int]@);
            }
            let name = shared.names[i].as_str();
            if self.may_answer(path, name) {
                let ghost had = got@;
                self.drop_name(name);
                self.remember_name(name);
                if !holds_text(&got, name) {
                    got.push(name.to_owned());
                    proof {
                        assert(texts(got@) =~= texts(had).push(name@));
                    }
                }
            }
            i += 1;
        }
        proof {
            assert(list.take(list.len() as int) =~= list);
        }
        let ghost done = self@;
        self.loaded.push(LoadedSpec { spec: shared, names: got });
        proof {
            assert(self@.entries =~= done.entries.push(
                Entry { spec: shared, names: texts(got@) },
            ));
            assert(self@.files =~= done.files);
        }
    }

    /// Adds a spec under its names.
    pub fn insert(&mut self, spec: Spec)
        requires
            old(self)@.valid(),
        ensures
            final(self)@ == inserted(old(self)@, Arc::new(spec), None),
            final(self)@.valid(),
    {
        self.insert_loaded(spec, None);
    }

    /// The place of the spec in memory under a name.
    fn entry_place(&self, name: &str) -> (found: Option<usize>)
        ensures
            match found {
                Some(i) => entry_at(self@.entries, name@, 0) == Some(i as int) && i
                    < self.loaded@.len(),
                None => entry_at(self@.entries, name@, 0) is None,
            },
    {
        let mut i: usize = 0;
        while i < self.loaded.len()
            invariant
                i <= self.loaded@.len(),
                entry_at(self@.entries, name@, 0) == entry_at(self@.entries, name@, i as int),
            decreases self.loaded@.len() - i,
        {
            if holds_text(&self.loaded[i].names, name) {
                return Some(i);
            }
            i += 1;
        }
        None
    }

    /// Marks the spec at a place as the most recently used.
    fn touch_loaded(&mut self, place: usize)
        requires
            place < old(self)@.entries.len(),
        ensures
            final(self)@ == (RegistryView {
                entries: touched(old(self)@.entries, place as int),
                ..old(self)@
            }),
    {
        let ghost start = self@;
        let entry = self.loaded.remove(place);
        self.loaded.push(entry);
        proof {
            assert(self@.entries =~= touched(start.entries, place as int));
            assert(self@.files =~= start.files);
        }
    }

    /// Drops the least recently used spec.
    fn evict_oldest_spec(&mut self)
        ensures
            final(self)@ == (RegistryView {
                entries: evicted(old(self)@.entries),
                ..old(self)@
            }),
    {
        let ghost start = self@;
        while self.loaded.len() > 0
            invariant
                start == old(self)@,
                self@.files == start.files,
                self@.root == start.root,
                self@.has_map == start.has_map,
                self@.names == start.names,
                evicted(self@.entries) == evicted(start.entries),
            decreases self.loaded@.len(),
        {
            let ghost here = self@;
            let oldest = self.loaded.remove(0);
            proof {
                assert(self@.entries =~= here.entries.skip(1));
                assert(here.entries[0] == oldest@);
                assert(texts(oldest.names@).len() == oldest.names@.len());
                assert(self@.files =~= start.files);
            }
            if oldest.names.len() > 0 {
                proof {
                    assert(self@.entries == evicted(start.entries));
                }
                return;
            }
        }
        proof {
            assert(self@.entries =~= evicted(start.entries));
        }
    }

    /// Says what is needed before the spec of a command can be used. A spec in
    /// memory becomes the most recently used.
    pub fn ensure_loaded(&mut self, name: &str) -> (step: LoadStep)
        requires
            old(self)@.valid(),
        ensures
            final(self)@.valid(),
            match entry_at(old(self)@.entries, name@, 0) {
                Some(i) => step is Cached && final(self)@ == (RegistryView {
                    entries: touched(old(self)@.entries, i),
                    ..old(self)@
                }),
                None => final(self)@ == old(self)@ && match file_of(old(self)@.files, name@) {
                    Some(path) => step matches LoadStep::Read(file) && file@ == path,
                    None => step is Unknown,
                },
            },
    {
        match self.entry_place(name) {
            Some(place) => {
                proof {
                    law_touching_keeps_answers(self@.entries, place as int, name@);
                }
                self.touch_loaded(place);
                LoadStep::Cached
            },
            None => match self.file_path(name) {
                Some(path) => LoadStep::Read(path.to_owned()),
                None => LoadStep::Unknown,
            },
        }
    }

    /// Takes in the spec of a command that was read from its file. The least
    /// recently used spec makes room where the memory is full. Without an
    /// index the aliases in the spec become commands too.
    pub fn finish_load(&mut self, name: &str, path: &str, spec: Spec)
        requires
            old(self)@.valid(),
        ensures
            exists|named: Spec|
                #![trigger with_name(spec, name@, named)]
                with_name(spec, name@, named) && final(self)@ == inserted(
                    prepared(old(self)@, texts(named.names@), path@),
                    Arc::new(named),
                    Some(path@),
                ),
            final(self)@.valid(),
    {
        let ghost start = self@;
        proof {
            lemma_evicted_distinct(start.entries);
        }
        if self.loaded.len() >= MAX_CACHED_SPECS {
            self.evict_oldest_spec();
        }
        let ghost roomy = self@;
        let mut named = spec;
        let ghost first = named;
        if !holds_text(&named.names, name) {
            named.names.push(name.to_owned());
            proof {
                assert(texts(named.names@) =~= texts(spec.names@).push(name@));
            }
        }
        proof {
            assert(with_name(spec, name@, named));
        }
        let ghost list = texts(named.names@);
        if !self.has_command_file_map {
            let mut i: usize = 0;
            proof {
                assert(list.take(0) =~= Seq::<Seq<char>>::empty());
            }
            while i < named.names.len()
                invariant
                    i <= named.names@.len(),
                    list == texts(named.names@),
                    roomy.valid(),
                    self@ == all_filed(roomy, list.take(i as int), path@),
                decreases named.names@.len() - i,
            {
                proof {
                    lemma_all_filed_valid(roomy, list.take(i as int), path@);
                    assert(list.take(i + 1).drop_last() =~= list.take(i as int));
                    assert(list.take(i + 1).last() == named.names@[i as int]@);
                }
                if !named.names[i].as_str().is_empty() {
                    self.remember_file(&named.names[i], path);
                }
                i += 1;
            }
            proof {
                assert(list.take(list.len() as int) =~= list);
            }
        }
        proof {
            lemma_all_filed_valid(roomy, list, path@);
            assert(self@ == prepared(start, list, path@));
        }
        self.insert_loaded(named, Some(path));
    }

    /// The spec in memory under a name, as a reference.
    pub fn get(&mut self, name: &str) -> (found: Option<&Spec>)
        requires
            old(self)@.valid(),
        ensures
            match cached(old(self)@.entries, name@) {
                Some(spec) => found == Some(&*spec),
                None => found is None,
            },
            final(self)@.valid(),
            match entry_at(old(self)@.entries, name@, 0) {
                Some(i) => final(self)@ == (RegistryView {
                    entries: touched(old(self)@.entries, i),
                    ..old(self)@
                }),
                None => final(self)@ == old(self)@,
            },
    {
        proof {
            if let Some(i) = entry_at(self@.entries, name@, 0) {
                lemma_entry_at(self@.entries, name@, 0);
                law_touching_keeps_answers(self@.entries, i, name@);
            }
        }
        let _ = self.ensure_loaded(name);
        match self.entry_place(name) {
            Some(i) => Some(&self.loaded[i].spec),
            None => None,
        }
    }

    /// The spec in memory under a name, for keeping.
    pub fn get_arc(&mut self, name: &str) -> (found: Option<Arc<Spec>>)
        requires
            old(self)@.valid(),
        ensures
            found == cached(old(self)@.entries, name@),
            final(self)@.valid(),
            match entry_at(old(self)@.entries, name@, 0) {
                Some(i) => final(self)@ == (RegistryView {
                    entries: touched(old(self)@.entries, i),
                    ..old(self)@
                }),
                None => final(self)@ == old(self)@,
            },
    {
        proof {
            if let Some(i) = entry_at(self@.entries, name@, 0) {
                lemma_entry_at(self@.entries, name@, 0);
                law_touching_keeps_answers(self@.entries, i, name@);
            }
        }
        let _ = self.ensure_loaded(name);
        match self.entry_place(name) {
            Some(i) => Some(share(&self.loaded[i].spec)),
            None => None,
        }
    }

    /// The spec in memory under a name, which does not count as a use.
    pub fn shared(&self, name: &str) -> (found: Option<Arc<Spec>>)
        ensures
            found == cached(self@.entries, name@),
    {
        match self.entry_place(name) {
            Some(i) => Some(share(&self.loaded[i].spec)),
            None => None,
        }
    }

    /// Whether a spec is in memory under a name.
    pub fn is_cached(&self, name: &str) -> (yes: bool)
        ensures
            yes == (cached(self@.entries, name@) is Some),
    {
        self.entry_place(name).is_some()
    }

    /// The number of specs in memory.
    pub fn loaded_spec_count(&self) -> (count: usize)
        ensures
            count == self@.entries.len(),
    {
        self.loaded.len()
    }

    /// The command names that match a query by prefix.
    pub fn command_names_matching(&self, query: &str) -> (pairs: Vec<(String, String)>)
        requires
            self@.valid(),
        ensures
            plain_pairs(pairs@) == names_matching(self@.names, query@, false),
            undescribed(pairs@),
    {
        self.command_names_matching_with(query, false)
    }

    /// The command names that match a query, without the query itself, at most
    /// [`MAX_NAME_MATCHES`] in alphabetical order.
    pub fn command_names_matching_with(&self, query: &str, fuzzy: bool) -> (pairs: Vec<
        (String, String),
    >)
        requires
            self@.valid(),
        ensures
            plain_pairs(pairs@) == names_matching(self@.names, query@, fuzzy),
            undescribed(pairs@),
    {
        let ghost all = self@.names;
        let mut pairs: Vec<(String, String)> = Vec::new();
        if query.is_empty() {
            let mut i: usize = 0;
            while i < self.names.len() && i < MAX_NAME_MATCHES
                invariant
                    i <= self.names@.len(),
                    i <= MAX_NAME_MATCHES,
                    all == texts(self.names@),
                    plain_pairs(pairs@) == all.take(i as int),
                    undescribed(pairs@),
                decreases self.names@.len() - i,
            {
                let ghost had = pairs@;
                pairs.push((self.names[i].clone(), String::new()));
                proof {
                    assert(plain_pairs(pairs@) =~= plain_pairs(had).push(self.names@[i as int]@));
                    assert(all.take(i + 1) =~= all.take(i as int).push(all[i as int]));
                }
                i += 1;
            }
            proof {
                assert(all.take(all.len() as int) =~= all);
            }
            return pairs;
        }
        let mut i: usize = if fuzzy {
            0
        } else {
            partition_place(&self.names, query)
        };
        let ghost wanted = names_matching(all, query@, fuzzy);
        proof {
            assert(plain_pairs(pairs@) =~= Seq::<Seq<char>>::empty());
            assert(plain_pairs(pairs@) + wanted =~= wanted);
        }
        while i < self.names.len() && pairs.len() < MAX_NAME_MATCHES
            invariant
                i <= self.names@.len(),
                all == texts(self.names@),
                pairs@.len() <= MAX_NAME_MATCHES,
                undescribed(pairs@),
                wanted == plain_pairs(pairs@) + if fuzzy {
                    fuzzy_names(all, query@, i as int, MAX_NAME_MATCHES - pairs@.len())
                } else {
                    prefix_names(all, query@, i as int, MAX_NAME_MATCHES - pairs@.len())
                },
            ensures
                undescribed(pairs@),
                wanted == plain_pairs(pairs@),
            decreases self.names@.len() - i,
        {
            let name = self.names[i].as_str();
            let is_query = same_ignoring_case(name, query);
            let ghost had = pairs@;
            let ghost left = MAX_NAME_MATCHES - pairs@.len();
            proof {
                assert(all[i as int] == name@);
            }
            if fuzzy {
                if !is_query && matches_query(name, query, true) {
                    pairs.push((name.to_owned(), String::new()));
                    proof {
                        assert(plain_pairs(pairs@) + fuzzy_names(all, query@, i + 1, left - 1)
                            =~= plain_pairs(had) + (seq![name@] + fuzzy_names(
                            all,
                            query@,
                            i + 1,
                            left - 1,
                        )));
                    }
                }
            } else {
                if !starts_with_ignore_case(name, query) {
                    proof {
                        assert(plain_pairs(pairs@) + Seq::<Seq<char>>::empty() =~= plain_pairs(
                            pairs@,
                        ));
                    }
                    break;
                }
                if !is_query {
                    pairs.push((name.to_owned(), String::new()));
                    proof {
                        assert(plain_pairs(pairs@) + prefix_names(all, query@, i + 1, left - 1)
                            =~= plain_pairs(had) + (seq![name@] + prefix_names(
                            all,
                            query@,
                            i + 1,
                            left - 1,
                        )));
                    }
                }
            }
            i += 1;
            proof {
                assert(plain_pairs(pairs@) + Seq::<Seq<char>>::empty() =~= plain_pairs(pairs@));
            }
        }
        pairs
    }

    /// The command names that match a query, the query itself first.
    pub fn command_names_matching_including_exact_with(&self, query: &str, fuzzy: bool) -> (pairs:
        Vec<(String, String)>)
        requires
            self@.valid(),
        ensures
            plain_pairs(pairs@) == names_with_exact(self@.names, query@, fuzzy),
            undescribed(pairs@),
    {
        let mut pairs = self.command_names_matching_with(query, fuzzy);
        if query.is_empty() {
            return pairs;
        }
        let ghost all = self@.names;
        let mut i: usize = 0;
        while i < self.names.len()
            invariant
                i <= self.names@.len(),
                all == texts(self.names@),
                all == self@.names,
                query@.len() > 0,
                undescribed(pairs@),
                plain_pairs(pairs@) == names_matching(all, query@, fuzzy),
                exact_name(all, query@, 0) == exact_name(all, query@, i as int),
            decreases self.names@.len() - i,
        {
            if same_ignoring_case(&self.names[i], query) {
                let ghost had = pairs@;
                let name = self.names[i].clone();
                pairs.insert(0, (name, String::new()));
                proof {
                    assert(plain_pairs(pairs@) =~= plain_pairs(had).insert(0, name@));
                }
                return pairs;
            }
            i += 1;
        }
        pairs
    }

    /// The number of commands: those with files or those in memory, whichever
    /// are more.
    pub fn len(&self) -> (count: usize)
        ensures
            count == if self@.files.len() >= named_count(self@.entries) {
                self@.files.len() as int
            } else if named_count(self@.entries) <= usize::MAX {
                named_count(self@.entries)
            } else {
                usize::MAX as int
            },
    {
        let mut named: usize = 0;
        let mut i: usize = 0;
        while i < self.loaded.len()
            invariant
                i <= self.loaded@.len(),
                named == if named_count(self@.entries.take(i as int)) <= usize::MAX {
                    named_count(self@.entries.take(i as int))
                } else {
                    usize::MAX as int
                },
            decreases self.loaded@.len() - i,
        {
            let count = self.loaded[i].names.len();
            proof {
                let upto = self@.entries.take(i + 1);
                assert(upto.drop_last() =~= self@.entries.take(i as int));
                assert(upto.last() == self.loaded@[i as int]@);
            }
            named = if count > usize::MAX - named {
                usize::MAX
            } else {
                named + count
            };
            i += 1;
        }
        proof {
            assert(self@.entries.take(self@.entries.len() as int) =~= self@.entries);
        }
        if self.files.len() >= named {
            self.files.len()
        } else {
            named
        }
    }

    /// Whether no command has a file or a spec in memory.
    pub fn is_empty(&self) -> (empty: bool)
        ensures
            empty == (self@.files.len() == 0 && named_count(self@.entries) == 0),
    {
        if self.files.len() > 0 {
            return false;
        }
        let mut i: usize = 0;
        while i < self.loaded.len()
            invariant
                i <= self.loaded@.len(),
                self@.files.len() == 0,
                named_count(self@.entries.take(i as int)) == 0,
            decreases self.loaded@.len() - i,
        {
            proof {
                let upto = self@.entries.take(i + 1);
                assert(upto.drop_last() =~= self@.entries.take(i as int));
                assert(upto.last() == self.loaded@[i as int]@);
            }
            if self.loaded[i].names.len() > 0 {
                proof {
                    lemma_named_count_grows(self@.entries, i + 1);
                }
                return false;
            }
            i += 1;
        }
        proof {
            assert(self@.entries.take(self@.entries.len() as int) =~= self@.entries);
        }
        true
    }

    /// A registry with the same contents.
    pub fn copied(&self) -> (copy: Registry)
        ensures
            copy@ == self@,
    {
        let mut loaded: Vec<LoadedSpec> = Vec::new();
        let mut i: usize = 0;
        while i < self.loaded.len()
            invariant
                i <= self.loaded@.len(),
                loaded@.len() == i,
                forall|k: int| 0 <= k < i ==> (#[trigger] loaded@[k])@ == self.loaded@[k]@,
            decreases self.loaded@.len() - i,
        {
            loaded.push(
                LoadedSpec {
                    spec: share(&self.loaded[i].spec),
                    names: copy_texts(&self.loaded[i].names),
                },
            );
            i += 1;
        }
        let mut files: Vec<(String, String)> = Vec::new();
        let mut j: usize = 0;
        while j < self.files.len()
            invariant
                j <= self.files@.len(),
                files@.len() == j,
                forall|k: int| 0 <= k < j ==> #[trigger] files@[k] == self.files@[k],
            decreases self.files@.len() - j,
        {
            files.push((self.files[j].0.clone(), self.files[j].1.clone()));
            j += 1;
        }
        let copy = Registry {
            loaded,
            files,
            root: self.root.clone(),
            has_command_file_map: self.has_command_file_map,
            names: copy_texts(&self.names),
        };
        proof {
            assert(copy@.entries =~= self@.entries);
            assert(copy@.files =~= self@.files);
        }
        copy
    }
}

/// The names of all specs in memory, counted.
pub open spec fn named_count(entries: Seq<Entry>) -> int
    decreases entries.len(),
{
    if entries.len() == 0 {
        0
    } else {
        named_count(entries.drop_last()) + entries.last().names.len()
    }
}

proof fn lemma_named_count_grows(entries: Seq<Entry>, i: int)
    requires
        0 <= i <= entries.len(),
    ensures
        0 <= named_count(entries.take(i)) <= named_count(entries),
    decreases entries.len() - i,
{
    if i == entries.len() {
        assert(entries.take(i) =~= entries);
        lemma_named_count_nonnegative(entries);
    } else {
        lemma_named_count_grows(entries, i + 1);
        lemma_named_count_nonnegative(entries.take(i));
        assert(entries.take(i + 1).drop_last() =~= entries.take(i));
    }
}

proof fn lemma_named_count_nonnegative(entries: Seq<Entry>)
    ensures
        named_count(entries) >= 0,
    decreases entries.len(),
{
    if entries.len() > 0 {
        lemma_named_count_nonnegative(entries.drop_last());
    }
}

/// The names of the first `i` files, sorted; of names that differ in case only
/// the first stays.
pub open spec fn names_of_files(files: Seq<(Seq<char>, Seq<char>)>, i: int) -> Seq<Seq<char>>
    decreases i,
{
    if i <= 0 {
        Seq::empty()
    } else {
        remembered(names_of_files(files, i - 1), files[i - 1].0)
    }
}

/// Whether `named` is the spec with the name added where it was missing.
pub open spec fn with_name(spec: Spec, name: Seq<char>, named: Spec) -> bool {
    &&& texts(named.names@) == if texts(spec.names@).contains(name) {
        texts(spec.names@)
    } else {
        texts(spec.names@).push(name)
    }
    &&& named == Spec { names: named.names, ..spec }
}

/// The registry made ready for a spec with the given names from a file: with
/// room for it, and, without an index, its names recorded as commands.
pub open spec fn prepared(
    r: RegistryView,
    list: Seq<Seq<char>>,
    path: Seq<char>,
) -> RegistryView {
    let roomy = if r.entries.len() >= MAX_CACHED_SPECS {
        RegistryView { entries: evicted(r.entries), ..r }
    } else {
        r
    };
    if r.has_map {
        roomy
    } else {
        all_filed(roomy, list, path)
    }
}

} // verus!
