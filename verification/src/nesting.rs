//! How deep references nest.
//!
//! [`resolved`] follows references up to a depth. Here stands which depth is
//! enough: it depends on the number of files, on how tall their specs are, and on
//! how often an inline spec leads to a file whose inline specs lead on. Files
//! whose inline specs lead back to themselves nest without end.
use vstd::prelude::*;

use crate::paths::{is_among, is_same_path};
use crate::references::{
    all_resolved, arg_resolved, args_resolved, ends, held_by, options_resolved, replaced, resolved,
    target_of, to_follow, under_names, LibraryView,
};
use crate::tree::{ArgView, LoadView, OptionView, SpecView};

verus! {

// ---------------------------------------------------------------------------
// Lists
// ---------------------------------------------------------------------------
proof fn lemma_all(
    list: Seq<SpecView>,
    n: nat,
    library: LibraryView,
    stack: Seq<Seq<char>>,
    depth: nat,
)
    requires
        n <= list.len(),
    ensures
        match all_resolved(list, n, library, stack, depth) {
            Some(out) => out.len() == n && forall|i: int|
                0 <= i < n ==> resolved(#[trigger] list[i], library, stack, depth) == Some(out[i]),
            None => exists|i: int|
                0 <= i < n && resolved(#[trigger] list[i], library, stack, depth) is None,
        },
    decreases n,
{
    if n > 0 {
        lemma_all(list, (n - 1) as nat, library, stack, depth);
        assert(list[n - 1] == list[n - 1]);
    }
}

proof fn lemma_args(
    list: Seq<ArgView>,
    n: nat,
    library: LibraryView,
    stack: Seq<Seq<char>>,
    depth: nat,
)
    requires
        n <= list.len(),
    ensures
        match args_resolved(list, n, library, stack, depth) {
            Some(out) => out.len() == n && forall|i: int|
                0 <= i < n ==> arg_resolved(#[trigger] list[i], library, stack, depth) == Some(
                    out[i],
                ),
            None => exists|i: int|
                0 <= i < n && arg_resolved(#[trigger] list[i], library, stack, depth) is None,
        },
    decreases n,
{
    if n > 0 {
        lemma_args(list, (n - 1) as nat, library, stack, depth);
        assert(list[n - 1] == list[n - 1]);
    }
}

proof fn lemma_options(
    list: Seq<OptionView>,
    n: nat,
    library: LibraryView,
    stack: Seq<Seq<char>>,
    depth: nat,
)
    requires
        n <= list.len(),
        depth > 0,
    ensures
        match options_resolved(list, n, library, stack, depth) {
            Some(out) => out.len() == n && forall|i: int|
                0 <= i < n ==> (args_resolved(
                    (#[trigger] list[i]).args,
                    list[i].args.len(),
                    library,
                    stack,
                    (depth - 1) as nat,
                ) matches Some(args) && out[i] == (OptionView { args, ..list[i] })),
            None => exists|i: int|
                0 <= i < n && args_resolved(
                    (#[trigger] list[i]).args,
                    list[i].args.len(),
                    library,
                    stack,
                    (depth - 1) as nat,
                ) is None,
        },
    decreases n,
{
    if n > 0 {
        lemma_options(list, (n - 1) as nat, library, stack, depth);
        assert(list[n - 1] == list[n - 1]);
    }
}

// ---------------------------------------------------------------------------
// More depth
// ---------------------------------------------------------------------------
proof fn lemma_more_depth_for_arg(
    a: ArgView,
    library: LibraryView,
    stack: Seq<Seq<char>>,
    depth: nat,
    more: nat,
)
    requires
        depth <= more,
        arg_resolved(a, library, stack, depth) is Some,
    ensures
        arg_resolved(a, library, stack, more) == arg_resolved(a, library, stack, depth),
    decreases depth, 0nat,
{
    match a.load_spec {
        None => {},
        Some(LoadView::Path(reference)) => {
            if let Some((path, raw)) = to_follow(library, stack, reference) {
                law_more_depth_changes_nothing(
                    raw,
                    library,
                    stack.push(path),
                    (depth - 1) as nat,
                    (more - 1) as nat,
                );
            }
        },
        Some(LoadView::Inline(spec)) => {
            law_more_depth_changes_nothing(
                *spec,
                library,
                stack,
                (depth - 1) as nat,
                (more - 1) as nat,
            );
        },
    }
}

proof fn lemma_more_depth_for_args(
    list: Seq<ArgView>,
    library: LibraryView,
    stack: Seq<Seq<char>>,
    depth: nat,
    more: nat,
)
    requires
        depth <= more,
        args_resolved(list, list.len(), library, stack, depth) is Some,
    ensures
        args_resolved(list, list.len(), library, stack, more) == args_resolved(
            list,
            list.len(),
            library,
            stack,
            depth,
        ),
    decreases depth, 1nat,
{
    lemma_args(list, list.len(), library, stack, depth);
    lemma_args(list, list.len(), library, stack, more);
    assert forall|i: int| 0 <= i < list.len() implies arg_resolved(
        #[trigger] list[i],
        library,
        stack,
        more,
    ) == arg_resolved(list[i], library, stack, depth) by {
        lemma_more_depth_for_arg(list[i], library, stack, depth, more);
    }
    let out = args_resolved(list, list.len(), library, stack, depth)->Some_0;
    if let Some(other) = args_resolved(list, list.len(), library, stack, more) {
        assert forall|i: int| 0 <= i < out.len() implies out[i] == other[i] by {
            assert(arg_resolved(list[i], library, stack, more) == Some(other[i]));
        }
        assert(out =~= other);
    }
}

/// A depth that is enough gives the same as any greater one.
pub proof fn law_more_depth_changes_nothing(
    v: SpecView,
    library: LibraryView,
    stack: Seq<Seq<char>>,
    depth: nat,
    more: nat,
)
    requires
        depth <= more,
        resolved(v, library, stack, depth) is Some,
    ensures
        resolved(v, library, stack, more) == resolved(v, library, stack, depth),
    decreases depth, 2nat,
{
    if let Some(LoadView::Path(reference)) = v.load_spec {
        if let Some((path, raw)) = to_follow(library, stack, reference) {
            law_more_depth_changes_nothing(
                raw,
                library,
                stack.push(path),
                (depth - 1) as nat,
                (more - 1) as nat,
            );
        }
    }
    let mid = replaced(v, library, stack, depth)->Some_0;
    assert(replaced(v, library, stack, more) == Some(mid));
    let d = (depth - 1) as nat;
    let m = (more - 1) as nat;
    let subs = mid.subcommands;
    lemma_all(subs, subs.len(), library, stack, d);
    lemma_all(subs, subs.len(), library, stack, m);
    assert forall|i: int| 0 <= i < subs.len() implies resolved(
        #[trigger] subs[i],
        library,
        stack,
        m,
    ) == resolved(subs[i], library, stack, d) by {
        law_more_depth_changes_nothing(subs[i], library, stack, d, m);
    }
    let kept = all_resolved(subs, subs.len(), library, stack, d)->Some_0;
    if let Some(other) = all_resolved(subs, subs.len(), library, stack, m) {
        assert forall|i: int| 0 <= i < kept.len() implies kept[i] == other[i] by {
            assert(resolved(subs[i], library, stack, m) == Some(other[i]));
        }
        assert(kept =~= other);
    }
    lemma_more_depth_for_args(mid.args, library, stack, d, m);
    let options = mid.options;
    if options.len() > 0 {
        lemma_options(options, options.len(), library, stack, d);
        lemma_options(options, options.len(), library, stack, m);
        assert forall|i: int| 0 <= i < options.len() implies args_resolved(
            (#[trigger] options[i]).args,
            options[i].args.len(),
            library,
            stack,
            (m - 1) as nat,
        ) == args_resolved(
            options[i].args,
            options[i].args.len(),
            library,
            stack,
            (d - 1) as nat,
        ) by {
            lemma_more_depth_for_args(
                options[i].args,
                library,
                stack,
                (d - 1) as nat,
                (m - 1) as nat,
            );
        }
        let held = options_resolved(options, options.len(), library, stack, d)->Some_0;
        if let Some(other) = options_resolved(options, options.len(), library, stack, m) {
            assert forall|i: int| 0 <= i < held.len() implies held[i] == other[i] by {
                assert(options[i] == options[i]);
            }
            assert(held =~= other);
        }
    }
}

// ---------------------------------------------------------------------------
// Where references lead
// ---------------------------------------------------------------------------
/// The readable file that a reference leads to.
pub open spec fn leads_to(library: LibraryView, reference: Seq<char>) -> Option<Seq<char>> {
    match target_of(library.root, library.index, reference) {
        Some(path) => if held_by(library.specs, path, 0) is Some {
            Some(path)
        } else {
            None
        },
        None => None,
    }
}

/// Whether a reference leads to a file of a rank below the limit, or nowhere.
pub open spec fn leads_below(
    library: LibraryView,
    rank: spec_fn(Seq<char>) -> nat,
    reference: Seq<char>,
    limit: nat,
) -> bool {
    leads_to(library, reference) matches Some(path) ==> rank(path) < limit
}

/// Whether the references of commands in a spec, inline specs included, lead to
/// files of ranks below the limit.
pub open spec fn is_below(
    v: SpecView,
    library: LibraryView,
    rank: spec_fn(Seq<char>) -> nat,
    limit: nat,
) -> bool
    decreases v,
{
    &&& match v.load_spec {
        None => true,
        Some(LoadView::Path(reference)) => leads_below(library, rank, reference, limit),
        Some(LoadView::Inline(spec)) => is_below(*spec, library, rank, limit),
    }
    &&& forall|i: int|
        0 <= i < v.subcommands.len() ==> is_below(
            #[trigger] v.subcommands[i],
            library,
            rank,
            limit,
        )
    &&& forall|i: int|
        0 <= i < v.args.len() ==> is_arg_below(#[trigger] v.args[i], library, rank, limit)
    &&& forall|i: int, j: int|
        0 <= i < v.options.len() && 0 <= j < v.options[i].args.len() ==> is_arg_below(
            #[trigger] v.options[i].args[j],
            library,
            rank,
            limit,
        )
}

/// [`is_below`] for the inline spec of an argument. A file that an argument
/// names is another matter: it is followed once.
pub open spec fn is_arg_below(
    a: ArgView,
    library: LibraryView,
    rank: spec_fn(Seq<char>) -> nat,
    limit: nat,
) -> bool
    decreases a,
{
    match a.load_spec {
        Some(LoadView::Inline(spec)) => is_below(*spec, library, rank, limit),
        _ => true,
    }
}

/// Whether a spec can stand in a file of the given rank: its commands refer to
/// files of no higher rank, and its inline specs to files of lower ranks.
pub open spec fn is_graded(
    v: SpecView,
    library: LibraryView,
    rank: spec_fn(Seq<char>) -> nat,
    own: nat,
) -> bool
    decreases v,
{
    &&& match v.load_spec {
        None => true,
        Some(LoadView::Path(reference)) => leads_below(library, rank, reference, own + 1),
        Some(LoadView::Inline(spec)) => is_below(*spec, library, rank, own),
    }
    &&& forall|i: int|
        0 <= i < v.subcommands.len() ==> is_graded(#[trigger] v.subcommands[i], library, rank, own)
    &&& forall|i: int|
        0 <= i < v.args.len() ==> is_arg_below(#[trigger] v.args[i], library, rank, own)
    &&& forall|i: int, j: int|
        0 <= i < v.options.len() && 0 <= j < v.options[i].args.len() ==> is_arg_below(
            #[trigger] v.options[i].args[j],
            library,
            rank,
            own,
        )
}

/// Whether every file of a library has a rank below `ranks` that suits it. There
/// are such ranks unless files lead to each other in a circle in which an inline
/// spec takes part.
pub open spec fn is_ranked(
    library: LibraryView,
    rank: spec_fn(Seq<char>) -> nat,
    ranks: nat,
) -> bool {
    forall|i: int|
        0 <= i < library.specs.len() ==> {
            let (path, spec) = #[trigger] library.specs[i];
            rank(path) < ranks && is_graded(spec, library, rank, rank(path))
        }
}

proof fn lemma_held(library: LibraryView, path: Seq<char>, i: int)
    ensures
        held_by(library.specs, path, i) matches Some(spec) ==> exists|j: int|
            0 <= j < library.specs.len() && #[trigger] library.specs[j] == (path, spec),
    decreases library.specs.len() - i,
{
    if 0 <= i < library.specs.len() {
        if library.specs[i].0 == path {
            assert(library.specs[i] == (path, library.specs[i].1));
        } else {
            lemma_held(library, path, i + 1);
        }
    }
}

proof fn lemma_below_more(
    v: SpecView,
    library: LibraryView,
    rank: spec_fn(Seq<char>) -> nat,
    limit: nat,
    more: nat,
)
    requires
        is_below(v, library, rank, limit),
        limit <= more,
    ensures
        is_below(v, library, rank, more),
    decreases v,
{
    if let Some(LoadView::Inline(spec)) = v.load_spec {
        lemma_below_more(*spec, library, rank, limit, more);
    }
    assert forall|i: int| 0 <= i < v.subcommands.len() implies is_below(
        #[trigger] v.subcommands[i],
        library,
        rank,
        more,
    ) by {
        lemma_below_more(v.subcommands[i], library, rank, limit, more);
    }
    assert forall|i: int| 0 <= i < v.args.len() implies is_arg_below(
        #[trigger] v.args[i],
        library,
        rank,
        more,
    ) by {
        lemma_arg_below_more(v.args[i], library, rank, limit, more);
    }
    assert forall|i: int, j: int|
        0 <= i < v.options.len() && 0 <= j < v.options[i].args.len() implies is_arg_below(
        #[trigger] v.options[i].args[j],
        library,
        rank,
        more,
    ) by {
        lemma_arg_below_more(v.options[i].args[j], library, rank, limit, more);
    }
}

proof fn lemma_arg_below_more(
    a: ArgView,
    library: LibraryView,
    rank: spec_fn(Seq<char>) -> nat,
    limit: nat,
    more: nat,
)
    requires
        is_arg_below(a, library, rank, limit),
        limit <= more,
    ensures
        is_arg_below(a, library, rank, more),
    decreases a,
{
    if let Some(LoadView::Inline(spec)) = a.load_spec {
        lemma_below_more(*spec, library, rank, limit, more);
    }
}

proof fn lemma_names_do_not_count(
    base: SpecView,
    loaded: SpecView,
    library: LibraryView,
    rank: spec_fn(Seq<char>) -> nat,
    limit: nat,
)
    requires
        is_below(loaded, library, rank, limit),
    ensures
        is_below(under_names(base, loaded), library, rank, limit),
{
}

proof fn lemma_graded_is_below(
    v: SpecView,
    library: LibraryView,
    rank: spec_fn(Seq<char>) -> nat,
    own: nat,
)
    requires
        is_graded(v, library, rank, own),
    ensures
        is_below(v, library, rank, own + 1),
    decreases v,
{
    if let Some(LoadView::Inline(spec)) = v.load_spec {
        lemma_below_more(*spec, library, rank, own, own + 1);
    }
    assert forall|i: int| 0 <= i < v.subcommands.len() implies is_below(
        #[trigger] v.subcommands[i],
        library,
        rank,
        own + 1,
    ) by {
        lemma_graded_is_below(v.subcommands[i], library, rank, own);
    }
    assert forall|i: int| 0 <= i < v.args.len() implies is_arg_below(
        #[trigger] v.args[i],
        library,
        rank,
        own + 1,
    ) by {
        lemma_arg_below_more(v.args[i], library, rank, own, own + 1);
    }
    assert forall|i: int, j: int|
        0 <= i < v.options.len() && 0 <= j < v.options[i].args.len() implies is_arg_below(
        #[trigger] v.options[i].args[j],
        library,
        rank,
        own + 1,
    ) by {
        lemma_arg_below_more(v.options[i].args[j], library, rank, own, own + 1);
    }
}

proof fn lemma_file_is_graded(
    library: LibraryView,
    rank: spec_fn(Seq<char>) -> nat,
    ranks: nat,
    path: Seq<char>,
    raw: SpecView,
)
    requires
        is_ranked(library, rank, ranks),
        held_by(library.specs, path, 0) == Some(raw),
    ensures
        rank(path) < ranks,
        is_graded(raw, library, rank, rank(path)),
{
    lemma_held(library, path, 0);
    let j = choose|j: int|
        0 <= j < library.specs.len() && #[trigger] library.specs[j] == (path, raw);
    assert(library.specs[j] == (path, raw));
}

/// Whether what is below a command leads below the limit, or can stand in a file
/// of that rank.
spec fn has_such_parts(
    v: SpecView,
    library: LibraryView,
    rank: spec_fn(Seq<char>) -> nat,
    limit: nat,
) -> bool {
    &&& forall|i: int|
        0 <= i < v.subcommands.len() ==> is_below(
            #[trigger] v.subcommands[i],
            library,
            rank,
            limit,
        ) || is_graded(v.subcommands[i], library, rank, limit)
    &&& forall|i: int|
        0 <= i < v.args.len() ==> is_arg_below(#[trigger] v.args[i], library, rank, limit)
    &&& forall|i: int, j: int|
        0 <= i < v.options.len() && 0 <= j < v.options[i].args.len() ==> is_arg_below(
            #[trigger] v.options[i].args[j],
            library,
            rank,
            limit,
        )
}

/// Whether the reference of a command leads below the limit.
spec fn is_load_below(
    load: Option<LoadView>,
    library: LibraryView,
    rank: spec_fn(Seq<char>) -> nat,
    limit: nat,
) -> bool {
    match load {
        None => true,
        Some(LoadView::Path(reference)) => leads_below(library, rank, reference, limit),
        Some(LoadView::Inline(spec)) => is_below(*spec, library, rank, limit),
    }
}

proof fn lemma_parts(
    v: SpecView,
    library: LibraryView,
    rank: spec_fn(Seq<char>) -> nat,
    limit: nat,
)
    requires
        is_below(v, library, rank, limit) || is_graded(v, library, rank, limit),
    ensures
        has_such_parts(v, library, rank, limit),
        is_below(v, library, rank, limit) ==> is_load_below(v.load_spec, library, rank, limit),
{
}

/// What is left of a spec's references once they were followed: those of a file
/// lead to lower ranks than its own.
proof fn lemma_followed_is_below(
    v: SpecView,
    library: LibraryView,
    rank: spec_fn(Seq<char>) -> nat,
    ranks: nat,
    limit: nat,
    stack: Seq<Seq<char>>,
    depth: nat,
)
    requires
        is_ranked(library, rank, ranks),
        is_below(v, library, rank, limit) || is_graded(v, library, rank, limit),
        resolved(v, library, stack, depth) is Some,
    ensures
        is_below(resolved(v, library, stack, depth)->Some_0, library, rank, limit),
    decreases depth,
{
    let mid = replaced(v, library, stack, depth)->Some_0;
    let out = resolved(v, library, stack, depth)->Some_0;
    let d = (depth - 1) as nat;
    if let Some(LoadView::Path(reference)) = v.load_spec {
        if let Some((path, raw)) = to_follow(library, stack, reference) {
            lemma_file_is_graded(library, rank, ranks, path, raw);
            assert(leads_to(library, reference) == Some(path));
            lemma_followed_is_below(
                raw,
                library,
                rank,
                ranks,
                rank(path),
                stack.push(path),
                d,
            );
            let loaded = resolved(raw, library, stack.push(path), d)->Some_0;
            lemma_below_more(loaded, library, rank, rank(path), limit);
            lemma_parts(loaded, library, rank, limit);
        }
    }
    if let Some(LoadView::Inline(spec)) = v.load_spec {
        lemma_parts(*spec, library, rank, limit);
    }
    lemma_parts(v, library, rank, limit);
    assert(has_such_parts(mid, library, rank, limit));
    assert(is_load_below(out.load_spec, library, rank, limit));
    let subs = mid.subcommands;
    lemma_all(subs, subs.len(), library, stack, d);
    assert forall|i: int| 0 <= i < out.subcommands.len() implies is_below(
        #[trigger] out.subcommands[i],
        library,
        rank,
        limit,
    ) by {
        assert(resolved(subs[i], library, stack, d) == Some(out.subcommands[i]));
        lemma_followed_is_below(subs[i], library, rank, ranks, limit, stack, d);
    }
    lemma_args(mid.args, mid.args.len(), library, stack, d);
    assert forall|i: int| 0 <= i < out.args.len() implies is_arg_below(
        #[trigger] out.args[i],
        library,
        rank,
        limit,
    ) by {
        assert(arg_resolved(mid.args[i], library, stack, d) == Some(out.args[i]));
        assert(is_arg_below(mid.args[i], library, rank, limit));
    }
    if mid.options.len() > 0 {
        lemma_options(mid.options, mid.options.len(), library, stack, d);
        assert forall|i: int, j: int|
            0 <= i < out.options.len() && 0 <= j < out.options[i].args.len() implies is_arg_below(
            #[trigger] out.options[i].args[j],
            library,
            rank,
            limit,
        ) by {
            let option = mid.options[i];
            let e = (d - 1) as nat;
            lemma_args(option.args, option.args.len(), library, stack, e);
            assert(arg_resolved(option.args[j], library, stack, e) == Some(out.options[i].args[j]));
            assert(is_arg_below(mid.options[i].args[j], library, rank, limit));
        }
    }
}

// ---------------------------------------------------------------------------
// Enough depth
// ---------------------------------------------------------------------------
/// The number of files that are not being followed, from place `i` on.
pub open spec fn files_left(
    specs: Seq<(Seq<char>, SpecView)>,
    stack: Seq<Seq<char>>,
    i: int,
) -> nat
    decreases specs.len() - i,
{
    if i < 0 || i >= specs.len() {
        0
    } else if is_among(stack, specs[i].0) {
        files_left(specs, stack, i + 1)
    } else {
        1 + files_left(specs, stack, i + 1)
    }
}

proof fn lemma_files_left(
    specs: Seq<(Seq<char>, SpecView)>,
    stack: Seq<Seq<char>>,
    path: Seq<char>,
    i: int,
)
    ensures
        files_left(specs, stack.push(path), i) <= files_left(specs, stack, i),
        held_by(specs, path, i) is Some && !is_among(stack, path) ==> files_left(
            specs,
            stack.push(path),
            i,
        ) < files_left(specs, stack, i),
        files_left(specs, stack, i) <= specs.len() - i || i < 0 || i > specs.len(),
    decreases specs.len() - i,
{
    if 0 <= i < specs.len() {
        lemma_files_left(specs, stack, path, i + 1);
        let pushed = stack.push(path);
        if is_among(stack, specs[i].0) {
            let k = choose|k: int|
                0 <= k < stack.len() && is_same_path(#[trigger] stack[k], specs[i].0);
            assert(is_same_path(pushed[k], specs[i].0));
        }
        if specs[i].0 == path {
            assert(is_same_path(pushed[stack.len() as int], path));
        }
    }
}

/// Whether subcommands and inline specs nest at most this deep in a spec.
pub open spec fn is_within(v: SpecView, height: nat) -> bool
    decreases height, 0nat,
{
    if height == 0 {
        false
    } else {
        let h = (height - 1) as nat;
        &&& v.load_spec matches Some(LoadView::Inline(spec)) ==> is_within(*spec, h)
        &&& forall|i: int|
            0 <= i < v.subcommands.len() ==> is_within(#[trigger] v.subcommands[i], h)
        &&& forall|i: int| 0 <= i < v.args.len() ==> is_arg_within(#[trigger] v.args[i], h)
        &&& forall|i: int, j: int|
            0 <= i < v.options.len() && 0 <= j < v.options[i].args.len() ==> is_arg_within(
                #[trigger] v.options[i].args[j],
                h,
            )
    }
}

/// [`is_within`] for the inline spec of an argument.
pub open spec fn is_arg_within(a: ArgView, height: nat) -> bool
    decreases height, 1nat,
{
    a.load_spec matches Some(LoadView::Inline(spec)) ==> is_within(*spec, height)
}

proof fn lemma_within_more(v: SpecView, height: nat, more: nat)
    requires
        is_within(v, height),
        height <= more,
    ensures
        is_within(v, more),
    decreases height,
{
    let h = (height - 1) as nat;
    let m = (more - 1) as nat;
    if let Some(LoadView::Inline(spec)) = v.load_spec {
        lemma_within_more(*spec, h, m);
    }
    assert forall|i: int| 0 <= i < v.subcommands.len() implies is_within(
        #[trigger] v.subcommands[i],
        m,
    ) by {
        lemma_within_more(v.subcommands[i], h, m);
    }
    assert forall|i: int| 0 <= i < v.args.len() implies is_arg_within(#[trigger] v.args[i], m) by {
        if let Some(LoadView::Inline(spec)) = v.args[i].load_spec {
            assert(is_arg_within(v.args[i], h));
            lemma_within_more(*spec, h, m);
        }
    }
    assert forall|i: int, j: int|
        0 <= i < v.options.len() && 0 <= j < v.options[i].args.len() implies is_arg_within(
        #[trigger] v.options[i].args[j],
        m,
    ) by {
        if let Some(LoadView::Inline(spec)) = v.options[i].args[j].load_spec {
            assert(is_arg_within(v.options[i].args[j], h));
            lemma_within_more(*spec, h, m);
        }
    }
}

/// How tall a spec of the given height can become, where `files` files are left
/// and its references lead below the limit.
pub open spec fn grown(height: nat, files: nat, limit: nat, ranks: nat, tallest: nat) -> nat
    decreases files, limit, height,
{
    height + 2 + (if height > 0 {
        grown((height - 1) as nat, files, limit, ranks, tallest)
    } else {
        0
    }) + (if files > 0 && limit > 0 {
        let loaded = grown(tallest, (files - 1) as nat, ranks, ranks, tallest);
        loaded + grown(loaded, files, (limit - 1) as nat, ranks, tallest)
    } else {
        0
    })
}

/// The depth that is enough for a spec of the given height, where `files` files
/// are left and its references lead below the limit. `ranks` and `tallest` bound
/// the ranks and heights of files.
pub open spec fn enough(height: nat, files: nat, limit: nat, ranks: nat, tallest: nat) -> nat
    decreases files, limit, height,
{
    3 + (if height > 0 {
        enough((height - 1) as nat, files, limit, ranks, tallest)
    } else {
        0
    }) + (if files > 0 {
        enough(tallest, (files - 1) as nat, ranks, ranks, tallest)
    } else {
        0
    }) + (if files > 0 && limit > 0 {
        enough(
            grown(tallest, (files - 1) as nat, ranks, ranks, tallest),
            files,
            (limit - 1) as nat,
            ranks,
            tallest,
        )
    } else {
        0
    })
}

/// Whether the files of a library have ranks below `ranks` and specs that are no
/// taller than `tallest`.
pub open spec fn is_bounded(
    library: LibraryView,
    rank: spec_fn(Seq<char>) -> nat,
    ranks: nat,
    tallest: nat,
) -> bool {
    is_ranked(library, rank, ranks) && forall|i: int|
        0 <= i < library.specs.len() ==> is_within((#[trigger] library.specs[i]).1, tallest)
}

proof fn lemma_file_is_bounded(
    library: LibraryView,
    rank: spec_fn(Seq<char>) -> nat,
    ranks: nat,
    tallest: nat,
    path: Seq<char>,
    raw: SpecView,
)
    requires
        is_bounded(library, rank, ranks, tallest),
        held_by(library.specs, path, 0) == Some(raw),
    ensures
        rank(path) < ranks,
        is_graded(raw, library, rank, rank(path)),
        is_below(raw, library, rank, ranks),
        is_within(raw, tallest),
{
    lemma_file_is_graded(library, rank, ranks, path, raw);
    lemma_graded_is_below(raw, library, rank, rank(path));
    lemma_below_more(raw, library, rank, rank(path) + 1, ranks);
    lemma_held(library, path, 0);
    let j = choose|j: int|
        0 <= j < library.specs.len() && #[trigger] library.specs[j] == (path, raw);
    assert(is_within(library.specs[j].1, tallest));
}

/// The depth that is enough for a file of which `files` others are left.
pub open spec fn enough_for_file(files: nat, ranks: nat, tallest: nat) -> nat {
    enough(tallest, files, ranks, ranks, tallest)
}

/// [`enough_for_file`] where a file is left to follow.
spec fn enough_to_follow(files: nat, ranks: nat, tallest: nat) -> nat {
    if files > 0 {
        enough_for_file((files - 1) as nat, ranks, tallest)
    } else {
        0
    }
}

proof fn lemma_enough_for_arg(
    a: ArgView,
    library: LibraryView,
    rank: spec_fn(Seq<char>) -> nat,
    ranks: nat,
    tallest: nat,
    stack: Seq<Seq<char>>,
    files: nat,
    limit: nat,
    height: nat,
    depth: nat,
)
    requires
        is_bounded(library, rank, ranks, tallest),
        is_arg_below(a, library, rank, limit),
        is_arg_within(a, height),
        files_left(library.specs, stack, 0) <= files,
        depth >= 1 + enough(height, files, limit, ranks, tallest) + enough_to_follow(
            files,
            ranks,
            tallest,
        ),
    ensures
        arg_resolved(a, library, stack, depth) matches Some(out) && out.load_spec == a.load_spec,
    decreases files, limit, height, 3nat,
{
    let d = (depth - 1) as nat;
    match a.load_spec {
        None => {},
        Some(LoadView::Path(reference)) => {
            if let Some((path, raw)) = to_follow(library, stack, reference) {
                lemma_files_left(library.specs, stack, path, 0);
                lemma_file_is_bounded(library, rank, ranks, tallest, path, raw);
                lemma_enough(
                    raw,
                    library,
                    rank,
                    ranks,
                    tallest,
                    stack.push(path),
                    (files - 1) as nat,
                    ranks,
                    tallest,
                    d,
                );
            }
        },
        Some(LoadView::Inline(spec)) => {
            lemma_enough(
                *spec,
                library,
                rank,
                ranks,
                tallest,
                stack,
                files,
                limit,
                height,
                d,
            );
        },
    }
}

proof fn lemma_enough_for_args(
    list: Seq<ArgView>,
    library: LibraryView,
    rank: spec_fn(Seq<char>) -> nat,
    ranks: nat,
    tallest: nat,
    stack: Seq<Seq<char>>,
    files: nat,
    limit: nat,
    height: nat,
    depth: nat,
)
    requires
        is_bounded(library, rank, ranks, tallest),
        forall|i: int|
            0 <= i < list.len() ==> is_arg_below(#[trigger] list[i], library, rank, limit),
        forall|i: int| 0 <= i < list.len() ==> is_arg_within(#[trigger] list[i], height),
        files_left(library.specs, stack, 0) <= files,
        depth >= 1 + enough(height, files, limit, ranks, tallest) + enough_to_follow(
            files,
            ranks,
            tallest,
        ),
    ensures
        args_resolved(list, list.len(), library, stack, depth) matches Some(out) && out.len()
            == list.len() && forall|i: int|
            0 <= i < list.len() ==> (#[trigger] out[i]).load_spec == list[i].load_spec,
    decreases files, limit, height, 4nat,
{
    lemma_args(list, list.len(), library, stack, depth);
    assert forall|i: int| 0 <= i < list.len() implies (arg_resolved(
        #[trigger] list[i],
        library,
        stack,
        depth,
    ) matches Some(out) && out.load_spec == list[i].load_spec) by {
        lemma_enough_for_arg(
            list[i],
            library,
            rank,
            ranks,
            tallest,
            stack,
            files,
            limit,
            height,
            depth,
        );
    }
    if let Some(out) = args_resolved(list, list.len(), library, stack, depth) {
        assert forall|i: int| 0 <= i < list.len() implies (#[trigger] out[i]).load_spec
            == list[i].load_spec by {
            assert(arg_resolved(list[i], library, stack, depth) == Some(out[i]));
        }
    }
}

/// What is below a command, resolved once the command's own reference is.
spec fn below_resolved(
    mid: SpecView,
    library: LibraryView,
    stack: Seq<Seq<char>>,
    d: nat,
) -> Option<SpecView> {
    match (
        all_resolved(mid.subcommands, mid.subcommands.len(), library, stack, d),
        args_resolved(mid.args, mid.args.len(), library, stack, d),
        options_resolved(mid.options, mid.options.len(), library, stack, d),
    ) {
        (Some(subcommands), Some(args), Some(options)) => Some(
            SpecView { subcommands, args, options, ..mid },
        ),
        _ => None,
    }
}

proof fn lemma_enough_below(
    mid: SpecView,
    library: LibraryView,
    rank: spec_fn(Seq<char>) -> nat,
    ranks: nat,
    tallest: nat,
    stack: Seq<Seq<char>>,
    files: nat,
    limit: nat,
    height: nat,
    d: nat,
)
    requires
        is_bounded(library, rank, ranks, tallest),
        is_below(mid, library, rank, limit),
        is_within(mid, height),
        files_left(library.specs, stack, 0) <= files,
        d + 1 >= enough(height, files, limit, ranks, tallest),
    ensures
        below_resolved(mid, library, stack, d) matches Some(out) && is_within(
            out,
            grown(height, files, limit, ranks, tallest),
        ),
    decreases files, limit, height, 1nat,
{
    let h = (height - 1) as nat;
    let top = (grown(height, files, limit, ranks, tallest) - 1) as nat;
    assert(d >= 2 + enough(h, files, limit, ranks, tallest) + enough_to_follow(
        files,
        ranks,
        tallest,
    ));
    assert(top >= h && top >= grown(h, files, limit, ranks, tallest));
    let subs = mid.subcommands;
    lemma_all(subs, subs.len(), library, stack, d);
    assert forall|i: int| 0 <= i < subs.len() implies (resolved(
        #[trigger] subs[i],
        library,
        stack,
        d,
    ) matches Some(out) && is_within(out, top)) by {
        lemma_enough(subs[i], library, rank, ranks, tallest, stack, files, limit, h, d);
        lemma_within_more(
            resolved(subs[i], library, stack, d)->Some_0,
            grown(h, files, limit, ranks, tallest),
            top,
        );
    }
    lemma_enough_for_args(
        mid.args,
        library,
        rank,
        ranks,
        tallest,
        stack,
        files,
        limit,
        h,
        d,
    );
    let e = (d - 1) as nat;
    lemma_options(mid.options, mid.options.len(), library, stack, d);
    assert forall|i: int| 0 <= i < mid.options.len() implies (args_resolved(
        (#[trigger] mid.options[i]).args,
        mid.options[i].args.len(),
        library,
        stack,
        e,
    ) matches Some(out) && out.len() == mid.options[i].args.len() && forall|j: int|
        0 <= j < out.len() ==> (#[trigger] out[j]).load_spec
            == mid.options[i].args[j].load_spec) by {
        let list = mid.options[i].args;
        assert forall|j: int| 0 <= j < list.len() implies is_arg_below(
            #[trigger] list[j],
            library,
            rank,
            limit,
        ) && is_arg_within(list[j], h) by {
            assert(mid.options[i].args[j] == list[j]);
        }
        lemma_enough_for_args(list, library, rank, ranks, tallest, stack, files, limit, h, e);
    }
    if let Some(out) = below_resolved(mid, library, stack, d) {
        if let Some(LoadView::Inline(spec)) = mid.load_spec {
            lemma_within_more(*spec, h, top);
        }
        assert forall|i: int| 0 <= i < out.subcommands.len() implies is_within(
            #[trigger] out.subcommands[i],
            top,
        ) by {
            assert(resolved(subs[i], library, stack, d) == Some(out.subcommands[i]));
        }
        assert forall|i: int| 0 <= i < out.args.len() implies is_arg_within(
            #[trigger] out.args[i],
            top,
        ) by {
            assert(is_arg_within(mid.args[i], h));
            if let Some(LoadView::Inline(spec)) = mid.args[i].load_spec {
                lemma_within_more(*spec, h, top);
            }
        }
        assert forall|i: int, j: int|
            0 <= i < out.options.len() && 0 <= j < out.options[i].args.len() implies is_arg_within(
            #[trigger] out.options[i].args[j],
            top,
        ) by {
            assert(is_arg_within(mid.options[i].args[j], h));
            if let Some(LoadView::Inline(spec)) = mid.options[i].args[j].load_spec {
                lemma_within_more(*spec, h, top);
            }
        }
    }
}

proof fn lemma_enough(
    v: SpecView,
    library: LibraryView,
    rank: spec_fn(Seq<char>) -> nat,
    ranks: nat,
    tallest: nat,
    stack: Seq<Seq<char>>,
    files: nat,
    limit: nat,
    height: nat,
    depth: nat,
)
    requires
        is_bounded(library, rank, ranks, tallest),
        is_below(v, library, rank, limit),
        is_within(v, height),
        files_left(library.specs, stack, 0) <= files,
        depth >= enough(height, files, limit, ranks, tallest),
    ensures
        resolved(v, library, stack, depth) matches Some(out) && is_within(
            out,
            grown(height, files, limit, ranks, tallest),
        ),
    decreases files, limit, height, 2nat,
{
    let d = (depth - 1) as nat;
    let all = grown(height, files, limit, ranks, tallest);
    match v.load_spec {
        None => {
            lemma_enough_below(
                v,
                library,
                rank,
                ranks,
                tallest,
                stack,
                files,
                limit,
                height,
                d,
            );
        },
        Some(LoadView::Inline(spec)) => {
            let mid = replaced(v, library, stack, depth)->Some_0;
            let h = (height - 1) as nat;
            lemma_names_do_not_count(v, *spec, library, rank, limit);
            assert(is_within(*spec, h));
            assert(is_within(mid, h));
            lemma_enough_below(
                mid,
                library,
                rank,
                ranks,
                tallest,
                stack,
                files,
                limit,
                h,
                d,
            );
            lemma_within_more(
                below_resolved(mid, library, stack, d)->Some_0,
                grown(h, files, limit, ranks, tallest),
                all,
            );
        },
        Some(LoadView::Path(reference)) => match to_follow(library, stack, reference) {
            None => {
                let mid = SpecView { load_spec: None, ..v };
                assert(is_below(mid, library, rank, limit));
                assert(is_within(mid, height));
                lemma_enough_below(
                    mid,
                    library,
                    rank,
                    ranks,
                    tallest,
                    stack,
                    files,
                    limit,
                    height,
                    d,
                );
            },
            Some((path, raw)) => {
                lemma_files_left(library.specs, stack, path, 0);
                lemma_file_is_bounded(library, rank, ranks, tallest, path, raw);
                assert(leads_to(library, reference) == Some(path));
                let fewer = (files - 1) as nat;
                let lower = (limit - 1) as nat;
                let pushed = stack.push(path);
                lemma_enough(
                    raw,
                    library,
                    rank,
                    ranks,
                    tallest,
                    pushed,
                    fewer,
                    ranks,
                    tallest,
                    d,
                );
                let loaded = resolved(raw, library, pushed, d)->Some_0;
                lemma_followed_is_below(raw, library, rank, ranks, rank(path), pushed, d);
                lemma_below_more(loaded, library, rank, rank(path), lower);
                let mid = replaced(v, library, stack, depth)->Some_0;
                let tall = grown(tallest, fewer, ranks, ranks, tallest);
                assert(is_below(mid, library, rank, lower));
                assert(is_within(mid, tall));
                lemma_enough_below(
                    mid,
                    library,
                    rank,
                    ranks,
                    tallest,
                    stack,
                    files,
                    lower,
                    tall,
                    d,
                );
                lemma_within_more(
                    below_resolved(mid, library, stack, d)->Some_0,
                    grown(tall, files, lower, ranks, tallest),
                    all,
                );
            },
        },
    }
}

/// Every readable file resolves: the depth [`enough_for_file`] is enough, and so
/// is any greater one. This needs ranks for the files of the library: where
/// files lead to each other in a circle by an inline spec, there are none, and
/// no depth is enough.
pub proof fn law_enough_depth_resolves_every_file(
    library: LibraryView,
    rank: spec_fn(Seq<char>) -> nat,
    ranks: nat,
    tallest: nat,
    path: Seq<char>,
    depth: nat,
)
    requires
        is_bounded(library, rank, ranks, tallest),
        held_by(library.specs, path, 0) is Some,
        depth >= enough_for_file(library.specs.len(), ranks, tallest),
    ensures
        resolved(held_by(library.specs, path, 0)->Some_0, library, seq![path], depth) is Some,
{
    let raw = held_by(library.specs, path, 0)->Some_0;
    lemma_files_left(library.specs, seq![path], path, 0);
    lemma_file_is_bounded(library, rank, ranks, tallest, path, raw);
    lemma_enough(
        raw,
        library,
        rank,
        ranks,
        tallest,
        seq![path],
        library.specs.len(),
        ranks,
        tallest,
        depth,
    );
}

/// The references of every readable file end, where [`enough_for_file`] is a
/// depth that a machine can count.
pub proof fn law_references_of_ranked_files_end(
    library: LibraryView,
    rank: spec_fn(Seq<char>) -> nat,
    ranks: nat,
    tallest: nat,
    path: Seq<char>,
)
    requires
        is_bounded(library, rank, ranks, tallest),
        held_by(library.specs, path, 0) is Some,
        enough_for_file(library.specs.len(), ranks, tallest) <= usize::MAX,
    ensures
        ends(held_by(library.specs, path, 0)->Some_0, library, seq![path]),
{
    let depth = enough_for_file(library.specs.len(), ranks, tallest);
    law_enough_depth_resolves_every_file(library, rank, ranks, tallest, path, depth);
    let raw = held_by(library.specs, path, 0)->Some_0;
    assert(resolved(raw, library, seq![path], depth) is Some);
}

} // verus!
