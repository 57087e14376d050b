//! Laws of the known commands: which names are offered, and where they are found.
use vstd::prelude::*;

use super::complete::{is_simple_word, law_simple_words_are_typed};
use super::rows::law_commands_are_offered_without_their_prefix;
use super::rows::offers_command;
use crate::lookup::complete::{completed, CompleteAnswers};
use crate::lookup::rows::command_rows;
use crate::lookup::shell::spaced;
use crate::query::{folds_plainly, is_ascii_text, is_match, lowercase};
use crate::registry::{
    all_filed, evicted, exact_name, file_at, file_of, filed, fuzzy_names, is_sorted, knows,
    names_matching, names_of_files, names_with_exact, place_for, prefix_names, prepared, Entry,
    MAX_CACHED_SPECS, MAX_NAME_MATCHES, RegistryView,
};
use crate::runtime::CompleteRequest;
use crate::settings::Settings;
use crate::text::{
    before, before_from, before_ignoring_case, begins_with, law_dictionary_order, lowered, texts,
};

verus! {

proof fn lemma_fuzzy_names(names: Seq<Seq<char>>, query: Seq<char>, i: int, room: int)
    requires
        0 <= i <= names.len(),
    ensures
        forall|k: int|
            i <= k < names.len() && lowered(#[trigger] names[k]) != lowered(query) && is_match(
                names[k],
                query,
                true,
            ) && names.len() - i <= room ==> fuzzy_names(names, query, i, room).contains(names[k]),
        forall|p: int|
            0 <= p < fuzzy_names(names, query, i, room).len() ==> names.contains(
                #[trigger] fuzzy_names(names, query, i, room)[p],
            ) && is_match(fuzzy_names(names, query, i, room)[p], query, true),
    decreases names.len() - i,
{
    if i < names.len() && room > 0 {
        let out = fuzzy_names(names, query, i, room);
        let taken = lowered(names[i]) != lowered(query) && is_match(names[i], query, true);
        let left = if taken { room - 1 } else { room };
        lemma_fuzzy_names(names, query, i + 1, left);
        let rest = fuzzy_names(names, query, i + 1, left);
        assert forall|k: int|
            i <= k < names.len() && lowered(#[trigger] names[k]) != lowered(query) && is_match(
                names[k],
                query,
                true,
            ) && names.len() - i <= room implies out.contains(names[k]) by {
            if k == i {
                assert(out[0] == names[k]);
            } else {
                assert(rest.contains(names[k]));
                let p = choose|p: int| 0 <= p < rest.len() && rest[p] == names[k];
                if taken {
                    assert(out[p + 1] == names[k]);
                } else {
                    assert(out[p] == names[k]);
                }
            }
        }
        assert forall|p: int| 0 <= p < out.len() implies names.contains(#[trigger] out[p])
            && is_match(out[p], query, true) by {
            if taken && p == 0 {
                assert(names[i] == out[p]);
            } else if taken {
                assert(out[p] == rest[p - 1]);
            } else {
                assert(out[p] == rest[p]);
            }
        }
    }
}

/// A text that stands in the order between a beginning and what begins with it
/// begins with it too.
proof fn lemma_between(q: Seq<char>, m: Seq<char>, n: Seq<char>, i: int)
    requires
        0 <= i <= q.len(),
        i <= m.len(),
        i <= n.len(),
        forall|k: int| 0 <= k < i ==> #[trigger] m[k] == q[k],
        n.len() >= q.len(),
        forall|k: int| 0 <= k < q.len() ==> #[trigger] n[k] == q[k],
        !before_from(m, q, i),
        m == n || before_from(m, n, i),
    ensures
        m.len() >= q.len(),
        forall|k: int| 0 <= k < q.len() ==> #[trigger] m[k] == q[k],
    decreases q.len() - i,
{
    if i < q.len() && m != n {
        assert(n[i] == q[i]);
        if i < m.len() {
            if m[i] == q[i] {
                lemma_between(q, m, n, i + 1);
            }
        }
    }
}

proof fn lemma_place(names: Seq<Seq<char>>, name: Seq<char>, i: int)
    requires
        0 <= i <= names.len(),
    ensures
        i <= place_for(names, name, i) <= names.len(),
        forall|k: int|
            i <= k < place_for(names, name, i) ==> before_ignoring_case(#[trigger] names[k], name),
        place_for(names, name, i) < names.len() ==> !before_ignoring_case(
            names[place_for(names, name, i)],
            name,
        ),
    decreases names.len() - i,
{
    if i < names.len() && before_ignoring_case(names[i], name) {
        lemma_place(names, name, i + 1);
    }
}

proof fn lemma_prefix_names(names: Seq<Seq<char>>, query: Seq<char>, i: int, room: int, k: int)
    requires
        0 <= i <= k < names.len(),
        forall|j: int| i <= j <= k ==> begins_with(lowercase(#[trigger] names[j]), lowercase(query)),
        lowered(names[k]) != lowered(query),
        k - i < room,
    ensures
        prefix_names(names, query, i, room).contains(names[k]),
    decreases k - i,
{
    let out = prefix_names(names, query, i, room);
    assert(begins_with(lowercase(names[i]), lowercase(query)));
    if i == k {
        assert(out[0] == names[k]);
    } else if lowered(names[i]) == lowered(query) {
        lemma_prefix_names(names, query, i + 1, room, k);
    } else {
        lemma_prefix_names(names, query, i + 1, room - 1, k);
        let rest = prefix_names(names, query, i + 1, room - 1);
        let p = choose|p: int| 0 <= p < rest.len() && rest[p] == names[k];
        assert(out[p + 1] == names[k]);
    }
}

/// With fuzzy matching every name that matches is offered, as long as there are not
/// too many names.
pub proof fn law_fuzzy_names_are_offered(names: Seq<Seq<char>>, query: Seq<char>, k: int)
    requires
        query.len() > 0,
        0 <= k < names.len() <= MAX_NAME_MATCHES,
        is_match(names[k], query, true),
        lowered(names[k]) != lowered(query),
    ensures
        names_matching(names, query, true).contains(names[k]),
{
    lemma_fuzzy_names(names, query, 0, MAX_NAME_MATCHES as int);
}

/// Without fuzzy matching every name that begins with the query, in any case of its
/// letters, is offered, as long as there are not too many names. (Names and query
/// are ASCII here.)
pub proof fn law_names_with_the_prefix_are_offered(
    names: Seq<Seq<char>>,
    query: Seq<char>,
    k: int,
)
    requires
        query.len() > 0,
        0 <= k < names.len() <= MAX_NAME_MATCHES,
        is_sorted(names),
        is_ascii_text(query) && folds_plainly(query),
        forall|i: int|
            0 <= i < names.len() ==> is_ascii_text(#[trigger] names[i]) && folds_plainly(names[i]),
        begins_with(lowered(names[k]), lowered(query)),
        lowered(names[k]) != lowered(query),
    ensures
        names_matching(names, query, false).contains(names[k]),
{
    let at = place_for(names, query, 0);
    lemma_place(names, query, 0);
    let q = lowered(query);
    let n = lowered(names[k]);
    super::text::law_prefixes(n, q, Seq::empty());
    assert(!before(n, q)) by {
        lemma_not_before(q, n, 0);
    }
    assert(k >= at);
    assert forall|j: int| at <= j <= k implies begins_with(
        lowercase(#[trigger] names[j]),
        lowercase(query),
    ) by {
        let m = lowered(names[j]);
        if j > at {
            assert(before_ignoring_case(names[at], names[j]));
            law_dictionary_order(lowered(names[at]), m, q);
            law_dictionary_order(m, q, lowered(names[at]));
            law_dictionary_order(q, lowered(names[at]), m);
        }
        assert(!before(m, q));
        if j < k {
            assert(before_ignoring_case(names[j], names[k]));
        }
        lemma_between(q, m, n, 0);
        assert(m.subrange(0, q.len() as int) =~= q);
        assert(is_ascii_text(names[j]));
    }
    lemma_prefix_names(names, query, at, MAX_NAME_MATCHES as int, k);
}

proof fn lemma_not_before(q: Seq<char>, n: Seq<char>, i: int)
    requires
        0 <= i <= q.len() <= n.len(),
        forall|k: int| 0 <= k < q.len() ==> #[trigger] n[k] == q[k],
    ensures
        !before_from(n, q, i),
    decreases q.len() - i,
{
    if i < q.len() {
        assert(n[i] == q[i]);
        lemma_not_before(q, n, i + 1);
    }
}

proof fn lemma_exact(names: Seq<Seq<char>>, query: Seq<char>, i: int)
    requires
        0 <= i,
    ensures
        exact_name(names, query, i) is Some <==> exists|k: int|
            i <= k < names.len() && lowered(#[trigger] names[k]) == lowered(query),
        exact_name(names, query, i) matches Some(name) ==> names.contains(name) && lowered(name)
            == lowered(query),
    decreases names.len() - i,
{
    if i < names.len() {
        lemma_exact(names, query, i + 1);
        if lowered(names[i]) == lowered(query) {
            assert(names.contains(names[i]));
        } else if exists|k: int| i <= k < names.len() && lowered(#[trigger] names[k]) == lowered(query) {
            let k = choose|k: int|
                i <= k < names.len() && lowered(#[trigger] names[k]) == lowered(query);
            assert(k != i);
        }
    }
}

/// A name that is typed out, in any case of ASCII letters, is offered first.
pub proof fn law_typed_out_names_come_first(
    names: Seq<Seq<char>>,
    query: Seq<char>,
    fuzzy: bool,
    k: int,
)
    requires
        query.len() > 0,
        0 <= k < names.len(),
        lowered(names[k]) == lowered(query),
    ensures
        names_with_exact(names, query, fuzzy).len() > 0,
        lowered(names_with_exact(names, query, fuzzy)[0]) == lowered(query),
        names.contains(names_with_exact(names, query, fuzzy)[0]),
        forall|name: Seq<char>|
            names_matching(names, query, fuzzy).contains(name) ==> #[trigger] names_with_exact(
                names,
                query,
                fuzzy,
            ).contains(name),
{
    lemma_exact(names, query, 0);
    assert(lowered(names[k]) == lowered(query));
    let out = names_with_exact(names, query, fuzzy);
    let others = names_matching(names, query, fuzzy);
    assert forall|name: Seq<char>| others.contains(name) implies #[trigger] out.contains(name) by {
        let p = choose|p: int| 0 <= p < others.len() && others[p] == name;
        assert(out[p + 1] == name);
    }
}

/// While the first word is typed, every known command that matches it fuzzily has a
/// row that inserts its name, as long as there are not too many commands.
pub proof fn law_commands_are_completed(
    names: Seq<Seq<char>>,
    request: CompleteRequest,
    settings: Settings,
    answers: CompleteAnswers,
    word: Seq<char>,
    k: int,
)
    requires
        is_simple_word(word),
        request.buffer@ == word,
        request.cursor is None,
        request.fuzzy,
        request.suggest_first_token,
        !texts(settings.disabled_commands@).contains(word),
        0 <= k < names.len() <= MAX_NAME_MATCHES,
        names[k].len() > 0,
        is_match(names[k], word, true),
        lowered(names[k]) != lowered(word),
    ensures
        completed(names, request, settings, answers) is Done,
        offers_command(
            completed(names, request, settings, answers)->Done_0.suggestions,
            names[k],
        ),
{
    let tokens = seq![word];
    assert(spaced(tokens) == word);
    law_simple_words_are_typed(tokens);
    law_fuzzy_names_are_offered(names, word, k);
    let all = names_with_exact(names, word, true);
    let others = names_matching(names, word, true);
    let p = choose|p: int| 0 <= p < others.len() && others[p] == names[k];
    assert(all.contains(names[k])) by {
        if exact_name(names, word, 0) is Some {
            assert(all[p + 1] == names[k]);
        } else {
            assert(all[p] == names[k]);
        }
    }
    let q = choose|q: int| 0 <= q < all.len() && all[q] == names[k];
    let none = Seq::<char>::empty();
    law_commands_are_offered_without_their_prefix(all, none);
    assert(all[q].subrange(0, 0) =~= none);
    assert(all[q].skip(0) =~= all[q]);
    assert(begins_with(all[q], none));
    assert(offers_command(command_rows(all, none), names[k]));
}

proof fn lemma_file_at(files: Seq<(Seq<char>, Seq<char>)>, name: Seq<char>, i: int)
    requires
        0 <= i,
    ensures
        file_at(files, name, i) matches Some(k) ==> i <= k < files.len() && files[k].0 == name,
    decreases files.len() - i,
{
    if i < files.len() {
        lemma_file_at(files, name, i + 1);
    }
}

proof fn lemma_file_pushed(
    files: Seq<(Seq<char>, Seq<char>)>,
    pair: (Seq<char>, Seq<char>),
    name: Seq<char>,
    i: int,
)
    requires
        0 <= i <= files.len(),
    ensures
        file_at(files.push(pair), name, i) == match file_at(files, name, i) {
            Some(k) => Some(k),
            None => if pair.0 == name {
                Some(files.len() as int)
            } else {
                None
            },
        },
    decreases files.len() - i,
{
    let out = files.push(pair);
    if i < files.len() {
        assert(out[i] == files[i]);
        lemma_file_pushed(files, pair, name, i + 1);
    } else {
        assert(out[i] == pair);
        assert(file_at(out, name, i + 1) is None);
    }
}

/// A name is found in the file that was first told for it; other names keep theirs.
pub proof fn law_files_are_found(
    r: RegistryView,
    name: Seq<char>,
    path: Seq<char>,
    other: Seq<char>,
)
    ensures
        file_of(filed(r, name, path).files, name) == if file_of(r.files, name) is Some {
            file_of(r.files, name)
        } else {
            Some(path)
        },
        other != name ==> file_of(filed(r, name, path).files, other) == file_of(r.files, other),
        filed(r, name, path).entries == r.entries,
{
    lemma_file_at(r.files, name, 0);
    lemma_file_at(r.files, other, 0);
    if file_of(r.files, name) is None {
        lemma_file_pushed(r.files, (name, path), name, 0);
        lemma_file_pushed(r.files, (name, path), other, 0);
    }
}

/// All names of a spec are found in its file, unless another was told before.
pub proof fn law_all_names_are_filed(
    r: RegistryView,
    list: Seq<Seq<char>>,
    path: Seq<char>,
    k: int,
)
    requires
        0 <= k < list.len(),
        list[k].len() > 0,
    ensures
        file_of(all_filed(r, list, path).files, list[k]) == if file_of(r.files, list[k]) is Some {
            file_of(r.files, list[k])
        } else {
            Some(path)
        },
    decreases list.len(),
{
    lemma_all_filed(r, list, path, list[k]);
    assert(list.contains(list[k]));
}

proof fn lemma_all_filed(r: RegistryView, list: Seq<Seq<char>>, path: Seq<char>, name: Seq<char>)
    requires
        name.len() > 0,
    ensures
        file_of(all_filed(r, list, path).files, name) == if file_of(r.files, name) is Some {
            file_of(r.files, name)
        } else if list.contains(name) {
            Some(path)
        } else {
            None
        },
    decreases list.len(),
{
    if list.len() > 0 {
        let rest = list.drop_last();
        lemma_all_filed(r, rest, path, name);
        let done = all_filed(r, rest, path);
        law_files_are_found(done, list.last(), path, name);
        assert(list =~= rest.push(list.last()));
        super::shape::lemma_push_contains(rest, list.last(), name);
    }
}

/// The names that are offered are those of the files, each spelled once.
pub proof fn law_file_names_are_known(files: Seq<(Seq<char>, Seq<char>)>, n: int, k: int)
    requires
        0 <= k < n <= files.len(),
        files[k].0.len() > 0,
    ensures
        is_sorted(names_of_files(files, n)),
        knows(names_of_files(files, n), files[k].0),
    decreases n,
{
    lemma_names_sorted(files, n - 1);
    let earlier = names_of_files(files, n - 1);
    crate::registry::law_remembering_keeps_order(earlier, files[n - 1].0);
    if k < n - 1 {
        law_file_names_are_known(files, n - 1, k);
        let i = choose|i: int|
            0 <= i < earlier.len() && lowered(#[trigger] earlier[i]) == lowered(files[k].0);
        let out = names_of_files(files, n);
        assert(earlier.contains(earlier[i]));
        assert(out.contains(earlier[i]));
        let j = choose|j: int| 0 <= j < out.len() && out[j] == earlier[i];
        assert(lowered(out[j]) == lowered(files[k].0));
    }
}

proof fn lemma_names_sorted(files: Seq<(Seq<char>, Seq<char>)>, n: int)
    requires
        0 <= n <= files.len(),
    ensures
        is_sorted(names_of_files(files, n)),
    decreases n,
{
    if n > 0 {
        lemma_names_sorted(files, n - 1);
        crate::registry::law_remembering_keeps_order(names_of_files(files, n - 1), files[n - 1].0);
    }
}

/// Before another spec is taken in, room is made: of too many the oldest one that
/// still answers to a name leaves, and the others stay in their order.
pub proof fn law_room_is_made(r: RegistryView, list: Seq<Seq<char>>, path: Seq<char>)
    requires
        r.entries.len() >= MAX_CACHED_SPECS,
    ensures
        prepared(r, list, path).entries.len() < r.entries.len(),
        prepared(r, list, path).entries == r.entries.skip(
            r.entries.len() - prepared(r, list, path).entries.len(),
        ),
        r.has_map ==> prepared(r, list, path).files == r.files,
{
    lemma_evicted(r.entries);
    lemma_filed_entries(RegistryView { entries: evicted(r.entries), ..r }, list, path);
}

proof fn lemma_evicted(entries: Seq<Entry>)
    requires
        entries.len() > 0,
    ensures
        evicted(entries).len() < entries.len(),
        evicted(entries) == entries.skip(entries.len() - evicted(entries).len()),
    decreases entries.len(),
{
    let rest = entries.skip(1);
    if entries[0].names.len() == 0 {
        if rest.len() > 0 {
            lemma_evicted(rest);
            let n = evicted(rest).len();
            assert(rest.skip(rest.len() - n) =~= entries.skip(entries.len() - n));
        } else {
            assert(evicted(rest) =~= entries.skip(1));
        }
    }
}

proof fn lemma_filed_entries(r: RegistryView, list: Seq<Seq<char>>, path: Seq<char>)
    ensures
        all_filed(r, list, path).entries == r.entries,
    decreases list.len(),
{
    if list.len() > 0 {
        lemma_filed_entries(r, list.drop_last(), path);
    }
}

} // verus!
