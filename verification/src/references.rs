//! Specs that refer to other specs: where a reference leads, and the spec with
//! its references followed.
//!
//! A command that refers to a spec becomes that spec under its own names. An
//! argument that refers to one keeps the reference beside the spec. A file that
//! is being followed already is not followed again from inside it.
use std::sync::Arc;
use vstd::prelude::*;

use crate::filegen::expand::{join_base, path_joined};
use crate::ir::{ArgSpec, LoadSpec, OptionSpec, Spec};
use crate::nesting::law_more_depth_changes_nothing;
use crate::paths::{holds_path, is_among};
use crate::text::{
    chars_of, concat, copy_texts, ends_with, finishes_with, holds_text, same, share, split,
    split_from, text_range, texts, trim, trimmed,
};
use crate::tree::{
    arg_view, arg_views, copy_arg, copy_option_with, copy_spec, load_view, option_view,
    option_views, spec_view, spec_views, ArgView, LoadView, OptionView, SpecView,
};

verus! {

// ---------------------------------------------------------------------------
// Where references lead
// ---------------------------------------------------------------------------
/// Whether a path stays below the directory it starts in: it is relative and
/// never goes up.
pub open spec fn is_safe(relative: Seq<char>) -> bool {
    &&& !(relative.len() > 0 && relative[0] == '/')
    &&& !split_from(relative, "/"@, 0).contains(".."@)
}

/// Computes [`is_safe`].
pub fn is_safe_path(relative: &str) -> (yes: bool)
    ensures
        yes == is_safe(relative@),
{
    let s = chars_of(relative);
    if s.len() > 0 && s[0] == '/' {
        return false;
    }
    proof {
        reveal_strlit("/");
    }
    let parts = split(relative, "/");
    !holds_text(&parts, "..")
}

/// Where the text behind leading `./` begins.
pub open spec fn behind_dots(s: Seq<char>, i: int) -> int
    decreases s.len() - i,
{
    if 0 <= i && i + 1 < s.len() && s[i] == '.' && s[i + 1] == '/' {
        behind_dots(s, i + 2)
    } else {
        i
    }
}

/// A reference without what does not count.
pub open spec fn plain_reference(reference: Seq<char>) -> Seq<char> {
    let t = trimmed(reference);
    t.skip(behind_dots(t, 0))
}

fn strip_reference(reference: &str) -> (plain: String)
    ensures
        plain@ == plain_reference(reference@),
{
    let t = trim(reference);
    let s = chars_of(&t);
    let n = s.len();
    let mut i: usize = 0;
    while n - i >= 2 && s[i] == '.' && s[i + 1] == '/'
        invariant
            i <= n,
            n == s@.len(),
            behind_dots(s@, 0) == behind_dots(s@, i as int),
        decreases n - i,
    {
        i += 2;
    }
    let plain = text_range(&s, i, n);
    proof {
        assert(plain@ =~= s@.skip(i as int));
    }
    plain
}

/// The path of a name in the index, from place `i` on.
pub open spec fn indexed_path(
    index: Seq<(Seq<char>, Seq<char>)>,
    name: Seq<char>,
    i: int,
) -> Option<Seq<char>>
    decreases index.len() - i,
{
    if i < 0 || i >= index.len() {
        None
    } else if index[i].0 == name {
        Some(index[i].1)
    } else {
        indexed_path(index, name, i + 1)
    }
}

/// A file name with its extension.
pub open spec fn json_file(reference: Seq<char>) -> Seq<char> {
    if finishes_with(reference, ".json"@) {
        reference
    } else {
        reference + ".json"@
    }
}

/// The file that a reference leads to: that of the name in the index, else one
/// below the directory of specs.
pub open spec fn target_of(
    root: Seq<char>,
    index: Seq<(Seq<char>, Seq<char>)>,
    reference: Seq<char>,
) -> Option<Seq<char>> {
    let plain = plain_reference(reference);
    if plain.len() == 0 || plain.contains('\\') {
        None
    } else {
        match indexed_path(index, plain, 0) {
            Some(path) => Some(path),
            None => if is_safe(json_file(plain)) {
                Some(path_joined(root, json_file(plain)))
            } else {
                None
            },
        }
    }
}

/// The specs at hand: the directory they are in, the files of commands, and
/// what the files hold.
pub struct Library {
    pub root: String,
    pub index: Vec<(String, String)>,
    pub specs: Vec<(String, Arc<Spec>)>,
}

/// The specs at hand.
pub struct LibraryView {
    pub root: Seq<char>,
    pub index: Seq<(Seq<char>, Seq<char>)>,
    pub specs: Seq<(Seq<char>, SpecView)>,
}

impl View for Library {
    type V = LibraryView;

    open spec fn view(&self) -> LibraryView {
        LibraryView {
            root: self.root@,
            index: crate::sorted::pair_texts(self.index@),
            specs: Seq::new(
                self.specs@.len(),
                |i: int| (self.specs@[i].0@, spec_view(*self.specs@[i].1)),
            ),
        }
    }
}

/// What a file holds, from place `i` on.
pub open spec fn held_by(specs: Seq<(Seq<char>, SpecView)>, path: Seq<char>, i: int) -> Option<
    SpecView,
>
    decreases specs.len() - i,
{
    if i < 0 || i >= specs.len() {
        None
    } else if specs[i].0 == path {
        Some(specs[i].1)
    } else {
        held_by(specs, path, i + 1)
    }
}

/// The file to follow a reference to, and what it holds. A file that cannot be
/// read, or that is being followed already, is none.
pub open spec fn to_follow(
    library: LibraryView,
    stack: Seq<Seq<char>>,
    reference: Seq<char>,
) -> Option<(Seq<char>, SpecView)> {
    match target_of(library.root, library.index, reference) {
        Some(path) => if is_among(stack, path) {
            None
        } else {
            match held_by(library.specs, path, 0) {
                Some(spec) => Some((path, spec)),
                None => None,
            }
        },
        None => None,
    }
}

/// Computes [`target_of`].
pub fn resolve_reference_path(root: &str, index: &[(String, String)], reference: &str) -> (path:
    Option<String>)
    ensures
        crate::text::opt_text(path) == target_of(
            root@,
            crate::sorted::pair_texts(index@),
            reference@,
        ),
{
    let plain = strip_reference(reference);
    let s = chars_of(&plain);
    let n = s.len();
    let slash = crate::text::index_of(&s, '\\', 0);
    proof {
        if plain@.contains('\\') {
            let k = plain@.index_of('\\');
            assert(s@[k] == '\\');
        }
        if slash < n {
            assert(plain@.contains(s@[slash as int]));
        }
    }
    if n == 0 || slash < n {
        return None;
    }
    let ghost pairs = crate::sorted::pair_texts(index@);
    let mut i: usize = 0;
    while i < index.len()
        invariant
            i <= index@.len(),
            pairs == crate::sorted::pair_texts(index@),
            plain@ == plain_reference(reference@),
            plain@.len() > 0,
            !plain@.contains('\\'),
            indexed_path(pairs, plain@, 0) == indexed_path(pairs, plain@, i as int),
        decreases index@.len() - i,
    {
        if same(&index[i].0, &plain) {
            return Some(index[i].1.clone());
        }
        i += 1;
    }
    let file = if ends_with(&plain, ".json") {
        plain
    } else {
        concat(&plain, ".json")
    };
    if is_safe_path(&file) {
        Some(join_base(root, &file))
    } else {
        None
    }
}

impl Library {
    /// What a file holds.
    pub fn find(&self, path: &str) -> (found: Option<Arc<Spec>>)
        ensures
            match found {
                Some(spec) => held_by(self@.specs, path@, 0) == Some(spec_view(*spec)),
                None => held_by(self@.specs, path@, 0) is None,
            },
    {
        let ghost all = self@.specs;
        let mut i: usize = 0;
        while i < self.specs.len()
            invariant
                i <= self.specs@.len(),
                all == self@.specs,
                held_by(all, path@, 0) == held_by(all, path@, i as int),
            decreases self.specs@.len() - i,
        {
            proof {
                assert(all[i as int] == (
                    self.specs@[i as int].0@,
                    spec_view(*self.specs@[i as int].1),
                ));
            }
            if same(&self.specs[i].0, path) {
                return Some(share(&self.specs[i].1));
            }
            i += 1;
        }
        None
    }

    /// Computes [`to_follow`].
    fn follow(&self, stack: &[String], reference: &str) -> (found: Option<(String, Arc<Spec>)>)
        ensures
            match found {
                Some((path, spec)) => to_follow(self@, texts(stack@), reference@) == Some(
                    (path@, spec_view(*spec)),
                ),
                None => to_follow(self@, texts(stack@), reference@) is None,
            },
    {
        let path = match resolve_reference_path(&self.root, &self.index, reference) {
            Some(path) => path,
            None => {
                return None;
            },
        };
        if holds_path(stack, &path) {
            return None;
        }
        match self.find(&path) {
            Some(spec) => Some((path, spec)),
            None => None,
        }
    }
}

// ---------------------------------------------------------------------------
// Following references
// ---------------------------------------------------------------------------
/// A spec that takes the place of another, under the names of that one.
pub open spec fn under_names(base: SpecView, loaded: SpecView) -> SpecView {
    SpecView {
        names: if base.names.len() > 0 {
            base.names
        } else {
            loaded.names
        },
        ..loaded
    }
}

/// A command with its own reference followed. Nothing comes back where the
/// nesting is too deep.
pub open spec fn replaced(
    v: SpecView,
    library: LibraryView,
    stack: Seq<Seq<char>>,
    depth: nat,
) -> Option<SpecView>
    decreases depth, 0nat,
{
    match v.load_spec {
        None => Some(v),
        Some(LoadView::Inline(spec)) => Some(under_names(v, *spec)),
        Some(LoadView::Path(reference)) => match to_follow(library, stack, reference) {
            None => Some(SpecView { load_spec: None, ..v }),
            Some((path, raw)) => if depth == 0 {
                None
            } else {
                match resolved(raw, library, stack.push(path), (depth - 1) as nat) {
                    Some(loaded) => Some(under_names(v, loaded)),
                    None => None,
                }
            },
        },
    }
}

/// A spec with its references followed. Nothing comes back where the nesting is
/// deeper than `depth`.
pub open spec fn resolved(
    v: SpecView,
    library: LibraryView,
    stack: Seq<Seq<char>>,
    depth: nat,
) -> Option<SpecView>
    decreases depth, 1nat,
{
    match replaced(v, library, stack, depth) {
        None => None,
        Some(mid) => if depth == 0 {
            None
        } else {
            let d = (depth - 1) as nat;
            match (
                all_resolved(mid.subcommands, mid.subcommands.len(), library, stack, d),
                args_resolved(mid.args, mid.args.len(), library, stack, d),
                options_resolved(mid.options, mid.options.len(), library, stack, d),
            ) {
                (Some(subcommands), Some(args), Some(options)) => Some(
                    SpecView { subcommands, args, options, ..mid },
                ),
                _ => None,
            }
        },
    }
}

/// The first `n` commands with their references followed.
pub open spec fn all_resolved(
    list: Seq<SpecView>,
    n: nat,
    library: LibraryView,
    stack: Seq<Seq<char>>,
    depth: nat,
) -> Option<Seq<SpecView>>
    decreases depth, n + 2,
{
    if n == 0 || n > list.len() {
        Some(Seq::empty())
    } else {
        match (
            all_resolved(list, (n - 1) as nat, library, stack, depth),
            resolved(list[n - 1], library, stack, depth),
        ) {
            (Some(earlier), Some(last)) => Some(earlier.push(last)),
            _ => None,
        }
    }
}

/// An argument with its reference followed.
pub open spec fn arg_resolved(
    a: ArgView,
    library: LibraryView,
    stack: Seq<Seq<char>>,
    depth: nat,
) -> Option<ArgView>
    decreases depth, 0nat,
{
    match a.load_spec {
        None => Some(a),
        Some(LoadView::Path(reference)) => match to_follow(library, stack, reference) {
            None => Some(a),
            Some((path, raw)) => if depth == 0 {
                None
            } else {
                match resolved(raw, library, stack.push(path), (depth - 1) as nat) {
                    Some(loaded) => Some(ArgView { resolved_spec: Some(loaded), ..a }),
                    None => None,
                }
            },
        },
        Some(LoadView::Inline(spec)) => if depth == 0 {
            None
        } else {
            match resolved(*spec, library, stack, (depth - 1) as nat) {
                Some(loaded) => Some(ArgView { resolved_spec: Some(loaded), ..a }),
                None => None,
            }
        },
    }
}

/// The first `n` arguments with their references followed.
pub open spec fn args_resolved(
    list: Seq<ArgView>,
    n: nat,
    library: LibraryView,
    stack: Seq<Seq<char>>,
    depth: nat,
) -> Option<Seq<ArgView>>
    decreases depth, n + 1,
{
    if n == 0 || n > list.len() {
        Some(Seq::empty())
    } else {
        match (
            args_resolved(list, (n - 1) as nat, library, stack, depth),
            arg_resolved(list[n - 1], library, stack, depth),
        ) {
            (Some(earlier), Some(last)) => Some(earlier.push(last)),
            _ => None,
        }
    }
}

/// The first `n` options with the references of their arguments followed.
pub open spec fn options_resolved(
    list: Seq<OptionView>,
    n: nat,
    library: LibraryView,
    stack: Seq<Seq<char>>,
    depth: nat,
) -> Option<Seq<OptionView>>
    decreases depth, n + 1,
{
    if n == 0 || n > list.len() {
        Some(Seq::empty())
    } else if depth == 0 {
        None
    } else {
        let option = list[n - 1];
        match (
            options_resolved(list, (n - 1) as nat, library, stack, depth),
            args_resolved(option.args, option.args.len(), library, stack, (depth - 1) as nat),
        ) {
            (Some(earlier), Some(args)) => Some(earlier.push(OptionView { args, ..option })),
            _ => None,
        }
    }
}

fn extended(stack: &[String], path: String) -> (out: Vec<String>)
    ensures
        texts(out@) == texts(stack@).push(path@),
{
    let mut out = copy_texts(stack);
    let ghost had = out@;
    let ghost view = path@;
    out.push(path);
    proof {
        assert(texts(out@) =~= texts(had).push(view));
    }
    out
}

/// Computes [`under_names`].
fn replace_spec_with_loaded(base: &Spec, loaded: Spec) -> (out: Spec)
    ensures
        spec_view(out) == under_names(spec_view(*base), spec_view(loaded)),
{
    let ghost view = spec_view(loaded);
    let names = if base.names.len() > 0 {
        copy_texts(&base.names)
    } else {
        copy_texts(&loaded.names)
    };
    let out = Spec { names, ..loaded };
    proof {
        assert(spec_view(out) =~= under_names(spec_view(*base), view));
    }
    out
}

/// Computes [`replaced`].
fn replace_references(spec: &Spec, library: &Library, stack: &[String], depth: usize) -> (out: Option<
    Spec,
>)
    ensures
        match out {
            Some(out) => replaced(spec_view(*spec), library@, texts(stack@), depth as nat) == Some(
                spec_view(out),
            ),
            None => replaced(spec_view(*spec), library@, texts(stack@), depth as nat) is None,
        },
    decreases depth, 0nat,
{
    match &spec.load_spec {
        None => Some(copy_spec(spec)),
        Some(LoadSpec::Inline(inner)) => Some(replace_spec_with_loaded(spec, copy_spec(inner))),
        Some(LoadSpec::Path(reference)) => match library.follow(stack, reference) {
            None => {
                let copy = copy_spec(spec);
                let out = Spec { load_spec: None, ..copy };
                proof {
                    assert(spec_view(out) =~= (SpecView { load_spec: None, ..spec_view(*spec) }));
                }
                Some(out)
            },
            Some((path, raw)) => {
                if depth == 0 {
                    return None;
                }
                let inner = extended(stack, path);
                match resolve_spec_references(&raw, library, &inner, depth - 1) {
                    Some(loaded) => Some(replace_spec_with_loaded(spec, loaded)),
                    None => None,
                }
            },
        },
    }
}

/// Computes [`resolved`].
pub fn resolve_spec_references(
    spec: &Spec,
    library: &Library,
    stack: &[String],
    depth: usize,
) -> (out: Option<Spec>)
    ensures
        match out {
            Some(out) => resolved(spec_view(*spec), library@, texts(stack@), depth as nat) == Some(
                spec_view(out),
            ),
            None => resolved(spec_view(*spec), library@, texts(stack@), depth as nat) is None,
        },
    decreases depth, 1nat,
{
    let mid = match replace_references(spec, library, stack, depth) {
        Some(mid) => mid,
        None => {
            return None;
        },
    };
    if depth == 0 {
        return None;
    }
    let subcommands = match resolve_all(&mid.subcommands, library, stack, depth - 1) {
        Some(list) => list,
        None => {
            return None;
        },
    };
    let args = match resolve_args(&mid.args, library, stack, depth - 1) {
        Some(list) => list,
        None => {
            return None;
        },
    };
    let options = match resolve_options(&mid.options, library, stack, depth - 1) {
        Some(list) => list,
        None => {
            return None;
        },
    };
    let ghost view = spec_view(mid);
    let out = Spec { subcommands, args, options, ..mid };
    proof {
        assert(spec_view(out) =~= (SpecView {
            subcommands: spec_views(subcommands),
            args: arg_views(args),
            options: option_views(options),
            ..view
        }));
    }
    Some(out)
}

proof fn lemma_all_stop(
    list: Seq<SpecView>,
    m: nat,
    n: nat,
    library: LibraryView,
    stack: Seq<Seq<char>>,
    depth: nat,
)
    requires
        m <= n <= list.len(),
        all_resolved(list, m, library, stack, depth) is None,
    ensures
        all_resolved(list, n, library, stack, depth) is None,
    decreases n - m,
{
    if m < n {
        lemma_all_stop(list, m, (n - 1) as nat, library, stack, depth);
    }
}

proof fn lemma_args_stop(
    list: Seq<ArgView>,
    m: nat,
    n: nat,
    library: LibraryView,
    stack: Seq<Seq<char>>,
    depth: nat,
)
    requires
        m <= n <= list.len(),
        args_resolved(list, m, library, stack, depth) is None,
    ensures
        args_resolved(list, n, library, stack, depth) is None,
    decreases n - m,
{
    if m < n {
        lemma_args_stop(list, m, (n - 1) as nat, library, stack, depth);
    }
}

proof fn lemma_options_stop(
    list: Seq<OptionView>,
    m: nat,
    n: nat,
    library: LibraryView,
    stack: Seq<Seq<char>>,
    depth: nat,
)
    requires
        m <= n <= list.len(),
        options_resolved(list, m, library, stack, depth) is None,
    ensures
        options_resolved(list, n, library, stack, depth) is None,
    decreases n - m,
{
    if m < n {
        lemma_options_stop(list, m, (n - 1) as nat, library, stack, depth);
    }
}

fn resolve_all(list: &Vec<Arc<Spec>>, library: &Library, stack: &[String], depth: usize) -> (out:
    Option<Vec<Arc<Spec>>>)
    ensures
        match out {
            Some(out) => all_resolved(
                spec_views(*list),
                list@.len(),
                library@,
                texts(stack@),
                depth as nat,
            ) == Some(spec_views(out)),
            None => all_resolved(
                spec_views(*list),
                list@.len(),
                library@,
                texts(stack@),
                depth as nat,
            ) is None,
        },
    decreases depth, 2nat,
{
    let ghost all = spec_views(*list);
    let mut out: Vec<Arc<Spec>> = Vec::new();
    let mut i: usize = 0;
    proof {
        assert(spec_views(out) =~= Seq::<SpecView>::empty());
    }
    while i < list.len()
        invariant
            i <= list@.len(),
            all == spec_views(*list),
            all_resolved(all, i as nat, library@, texts(stack@), depth as nat) == Some(
                spec_views(out),
            ),
        decreases list@.len() - i,
    {
        match resolve_spec_references(&list[i], library, stack, depth) {
            Some(spec) => {
                let ghost had = out;
                let ghost view = spec_view(spec);
                out.push(Arc::new(spec));
                proof {
                    assert(spec_views(out) =~= spec_views(had).push(view));
                }
            },
            None => {
                proof {
                    lemma_all_stop(
                        all,
                        (i + 1) as nat,
                        list@.len(),
                        library@,
                        texts(stack@),
                        depth as nat,
                    );
                }
                return None;
            },
        }
        i += 1;
    }
    Some(out)
}

fn resolve_args(list: &Vec<Arc<ArgSpec>>, library: &Library, stack: &[String], depth: usize) -> (out:
    Option<Vec<Arc<ArgSpec>>>)
    ensures
        match out {
            Some(out) => args_resolved(
                arg_views(*list),
                list@.len(),
                library@,
                texts(stack@),
                depth as nat,
            ) == Some(arg_views(out)),
            None => args_resolved(
                arg_views(*list),
                list@.len(),
                library@,
                texts(stack@),
                depth as nat,
            ) is None,
        },
    decreases depth, 2nat,
{
    let ghost all = arg_views(*list);
    let mut out: Vec<Arc<ArgSpec>> = Vec::new();
    let mut i: usize = 0;
    proof {
        assert(arg_views(out) =~= Seq::<ArgView>::empty());
    }
    while i < list.len()
        invariant
            i <= list@.len(),
            all == arg_views(*list),
            args_resolved(all, i as nat, library@, texts(stack@), depth as nat) == Some(
                arg_views(out),
            ),
        decreases list@.len() - i,
    {
        match resolve_arg_spec(&list[i], library, stack, depth) {
            Some(arg) => {
                let ghost had = out;
                let ghost view = arg_view(arg);
                out.push(Arc::new(arg));
                proof {
                    assert(arg_views(out) =~= arg_views(had).push(view));
                }
            },
            None => {
                proof {
                    lemma_args_stop(
                        all,
                        (i + 1) as nat,
                        list@.len(),
                        library@,
                        texts(stack@),
                        depth as nat,
                    );
                }
                return None;
            },
        }
        i += 1;
    }
    Some(out)
}

/// Computes [`arg_resolved`].
pub fn resolve_arg_spec(arg: &ArgSpec, library: &Library, stack: &[String], depth: usize) -> (out:
    Option<ArgSpec>)
    ensures
        match out {
            Some(out) => arg_resolved(arg_view(*arg), library@, texts(stack@), depth as nat) == Some(
                arg_view(out),
            ),
            None => arg_resolved(arg_view(*arg), library@, texts(stack@), depth as nat) is None,
        },
    decreases depth, 0nat,
{
    let loaded = match &arg.load_spec {
        None => {
            return Some(copy_arg(arg));
        },
        Some(LoadSpec::Path(reference)) => match library.follow(stack, reference) {
            None => {
                return Some(copy_arg(arg));
            },
            Some((path, raw)) => {
                if depth == 0 {
                    return None;
                }
                let inner = extended(stack, path);
                resolve_spec_references(&raw, library, &inner, depth - 1)
            },
        },
        Some(LoadSpec::Inline(spec)) => {
            if depth == 0 {
                return None;
            }
            resolve_spec_references(spec, library, stack, depth - 1)
        },
    };
    match loaded {
        Some(loaded) => {
            let ghost view = spec_view(loaded);
            let copy = copy_arg(arg);
            let out = ArgSpec { resolved_spec: Some(Arc::new(loaded)), ..copy };
            proof {
                assert(arg_view(out) =~= (ArgView {
                    resolved_spec: Some(view),
                    ..arg_view(*arg)
                }));
            }
            Some(out)
        },
        None => None,
    }
}

fn resolve_options(
    list: &Vec<Arc<OptionSpec>>,
    library: &Library,
    stack: &[String],
    depth: usize,
) -> (out: Option<Vec<Arc<OptionSpec>>>)
    ensures
        match out {
            Some(out) => options_resolved(
                option_views(*list),
                list@.len(),
                library@,
                texts(stack@),
                depth as nat,
            ) == Some(option_views(out)),
            None => options_resolved(
                option_views(*list),
                list@.len(),
                library@,
                texts(stack@),
                depth as nat,
            ) is None,
        },
    decreases depth, 1nat,
{
    let ghost all = option_views(*list);
    let mut out: Vec<Arc<OptionSpec>> = Vec::new();
    let mut i: usize = 0;
    proof {
        assert(option_views(out) =~= Seq::<OptionView>::empty());
    }
    while i < list.len()
        invariant
            i <= list@.len(),
            all == option_views(*list),
            options_resolved(all, i as nat, library@, texts(stack@), depth as nat) == Some(
                option_views(out),
            ),
        decreases list@.len() - i,
    {
        let option = &list[i];
        let args = if depth == 0 {
            None
        } else {
            resolve_args(&option.args, library, stack, depth - 1)
        };
        match args {
            Some(args) => {
                let ghost had = out;
                let copy = copy_option_with(option, args);
                let ghost view = option_view(copy);
                out.push(Arc::new(copy));
                proof {
                    assert(option_views(out) =~= option_views(had).push(view));
                }
            },
            None => {
                proof {
                    lemma_options_stop(
                        all,
                        (i + 1) as nat,
                        list@.len(),
                        library@,
                        texts(stack@),
                        depth as nat,
                    );
                }
                return None;
            },
        }
        i += 1;
    }
    Some(out)
}

/// Whether references end at some depth that a machine can count.
pub open spec fn ends(v: SpecView, library: LibraryView, stack: Seq<Seq<char>>) -> bool {
    exists|depth: nat| depth <= usize::MAX && #[trigger] resolved(v, library, stack, depth) is Some
}

/// A spec with its references followed as deep as they go. Every depth that is
/// enough gives the same.
pub open spec fn fully_resolved(
    v: SpecView,
    library: LibraryView,
    stack: Seq<Seq<char>>,
) -> Option<SpecView> {
    resolved(v, library, stack, usize::MAX as nat)
}

/// The spec in a file with its references followed as deep as they go; absent
/// where the file cannot be read. The references have to end: where files lead
/// to each other in a circle by inline specs, they may not. [`crate::nesting`]
/// says which do.
pub fn load_spec_file(path: &str, library: &Library) -> (out: Option<Spec>)
    requires
        held_by(library@.specs, path@, 0) matches Some(raw) ==> ends(raw, library@, seq![path@]),
    ensures
        match held_by(library@.specs, path@, 0) {
            Some(raw) => out matches Some(out) && fully_resolved(raw, library@, seq![path@])
                == Some(spec_view(out)) && forall|depth: nat|
                (#[trigger] resolved(raw, library@, seq![path@], depth) matches Some(other)
                    ==> depth <= usize::MAX ==> other == spec_view(out)),
            None => out is None,
        },
{
    match library.find(path) {
        Some(raw) => {
            let mut stack: Vec<String> = Vec::new();
            stack.push(path.to_owned());
            let ghost v = held_by(library@.specs, path@, 0)->Some_0;
            proof {
                assert(texts(stack@) =~= seq![path@]);
                assert forall|depth: nat|
                    depth <= usize::MAX && #[trigger] resolved(
                        v,
                        library@,
                        seq![path@],
                        depth,
                    ) is Some implies resolved(v, library@, seq![path@], depth) == fully_resolved(
                    v,
                    library@,
                    seq![path@],
                ) by {
                    law_more_depth_changes_nothing(
                        v,
                        library@,
                        seq![path@],
                        depth,
                        usize::MAX as nat,
                    );
                }
            }
            resolve_spec_references(&raw, library, &stack, usize::MAX)
        },
        None => None,
    }
}

/// [`load_spec_file`] for references that need not end: absent too where they
/// nest deeper than `depth`.
pub fn load_spec_file_within(path: &str, library: &Library, depth: usize) -> (out: Option<Spec>)
    ensures
        match held_by(library@.specs, path@, 0) {
            Some(raw) => match out {
                Some(out) => resolved(raw, library@, seq![path@], depth as nat) == Some(
                    spec_view(out),
                ) && ends(raw, library@, seq![path@]),
                None => resolved(raw, library@, seq![path@], depth as nat) is None,
            },
            None => out is None,
        },
{
    match library.find(path) {
        Some(raw) => {
            let mut stack: Vec<String> = Vec::new();
            stack.push(path.to_owned());
            proof {
                assert(texts(stack@) =~= seq![path@]);
            }
            resolve_spec_references(&raw, library, &stack, depth)
        },
        None => None,
    }
}

// ---------------------------------------------------------------------------
// All references of a spec
// ---------------------------------------------------------------------------
/// The references below a reference that is written out, or the reference
/// itself.
pub open spec fn references_at(load: Option<LoadView>) -> Seq<Seq<char>>
    decreases load,
{
    match load {
        None => Seq::empty(),
        Some(LoadView::Path(reference)) => seq![reference],
        Some(LoadView::Inline(spec)) => references_in(*spec),
    }
}

/// All references in a spec.
pub open spec fn references_in(v: SpecView) -> Seq<Seq<char>>
    decreases v,
{
    references_at(v.load_spec) + references_in_all(v.subcommands) + references_in_args(v.args)
        + references_in_options(v.options)
}

/// All references in specs.
pub open spec fn references_in_all(list: Seq<SpecView>) -> Seq<Seq<char>>
    decreases list,
{
    if list.len() == 0 {
        Seq::empty()
    } else {
        references_in_all(list.drop_last()) + references_in(list.last())
    }
}

/// All references in arguments.
pub open spec fn references_in_args(list: Seq<ArgView>) -> Seq<Seq<char>>
    decreases list,
{
    if list.len() == 0 {
        Seq::empty()
    } else {
        references_in_args(list.drop_last()) + references_at(list.last().load_spec)
    }
}

/// All references in the arguments of options.
pub open spec fn references_in_options(list: Seq<OptionView>) -> Seq<Seq<char>>
    decreases list,
{
    if list.len() == 0 {
        Seq::empty()
    } else {
        references_in_options(list.drop_last()) + references_in_args(list.last().args)
    }
}

fn add_all(out: &mut Vec<String>, more: Vec<String>)
    ensures
        texts(final(out)@) == texts(old(out)@) + texts(more@),
{
    let ghost start = texts(out@);
    let ghost all = texts(more@);
    let mut i: usize = 0;
    proof {
        assert(start + all.take(0) =~= start);
    }
    while i < more.len()
        invariant
            i <= more@.len(),
            all == texts(more@),
            texts(out@) == start + all.take(i as int),
        decreases more@.len() - i,
    {
        let ghost had = out@;
        out.push(more[i].clone());
        i += 1;
        proof {
            assert(texts(out@) =~= texts(had).push(all[i - 1]));
            assert(all.take(i as int) =~= all.take(i - 1).push(all[i - 1]));
            assert(texts(out@) =~= start + all.take(i as int));
        }
    }
    proof {
        assert(all.take(all.len() as int) =~= all);
    }
}

proof fn lemma_inline(load: Option<LoadView>)
    ensures
        load matches Some(LoadView::Inline(spec)) ==> decreases_to!(load => *spec),
{
    if let Some(inner) = load {
        assert(decreases_to!(load => inner));
        if let LoadView::Inline(spec) = inner {
            assert(decreases_to!(inner => spec));
        }
    }
}

fn collect_at(load: &Option<LoadSpec>) -> (out: Vec<String>)
    ensures
        texts(out@) == references_at(load_view(*load)),
    decreases load_view(*load),
{
    let mut out: Vec<String> = Vec::new();
    proof {
        lemma_inline(load_view(*load));
        assert(texts(out@) =~= Seq::<Seq<char>>::empty());
    }
    match load {
        None => out,
        Some(LoadSpec::Path(reference)) => {
            out.push(reference.clone());
            proof {
                assert(texts(out@) =~= seq![reference@]);
            }
            out
        },
        Some(LoadSpec::Inline(spec)) => collect_references(spec),
    }
}

/// Computes [`references_in`].
pub fn collect_references(spec: &Spec) -> (out: Vec<String>)
    ensures
        texts(out@) == references_in(spec_view(*spec)),
    decreases spec_view(*spec),
{
    let ghost v = spec_view(*spec);
    proof {
        assert(decreases_to!(v => v.load_spec));
    }
    let mut out = collect_at(&spec.load_spec);
    let ghost first = texts(out@);
    let mut i: usize = 0;
    let ghost all = spec_views(spec.subcommands);
    proof {
        assert(all.take(0) =~= Seq::<SpecView>::empty());
        assert(first + Seq::<Seq<char>>::empty() =~= first);
        assert(decreases_to!(v => v.subcommands));
    }
    while i < spec.subcommands.len()
        invariant
            i <= spec.subcommands@.len(),
            v == spec_view(*spec),
            all == spec_views(spec.subcommands),
            decreases_to!(v => all),
            texts(out@) == first + references_in_all(all.take(i as int)),
        decreases spec.subcommands@.len() - i,
    {
        proof {
            assert(all.take(i + 1).drop_last() =~= all.take(i as int));
            assert(all.take(i + 1).last() == all[i as int]);
            assert(decreases_to!(all => all[i as int]));
        }
        let more = collect_references(&spec.subcommands[i]);
        add_all(&mut out, more);
        proof {
            assert(texts(out@) =~= first + references_in_all(all.take(i + 1)));
        }
        i += 1;
    }
    let ghost second = texts(out@);
    proof {
        assert(all.take(all.len() as int) =~= all);
        assert(decreases_to!(v => v.args));
        assert(decreases_to!(v => v.options));
    }
    let args = collect_in_args(&spec.args);
    add_all(&mut out, args);
    let mut k: usize = 0;
    let ghost third = texts(out@);
    let ghost options = option_views(spec.options);
    proof {
        assert(options.take(0) =~= Seq::<OptionView>::empty());
        assert(third + Seq::<Seq<char>>::empty() =~= third);
    }
    while k < spec.options.len()
        invariant
            k <= spec.options@.len(),
            v == spec_view(*spec),
            options == option_views(spec.options),
            decreases_to!(v => options),
            texts(out@) == third + references_in_options(options.take(k as int)),
        decreases spec.options@.len() - k,
    {
        proof {
            assert(options.take(k + 1).drop_last() =~= options.take(k as int));
            assert(options.take(k + 1).last() == options[k as int]);
            assert(decreases_to!(options => options[k as int]));
            assert(decreases_to!(options[k as int] => options[k as int].args));
        }
        let more = collect_in_args(&spec.options[k].args);
        add_all(&mut out, more);
        proof {
            assert(texts(out@) =~= third + references_in_options(options.take(k + 1)));
        }
        k += 1;
    }
    proof {
        assert(options.take(options.len() as int) =~= options);
        assert(texts(out@) =~= references_in(v));
    }
    out
}

fn collect_in_args(args: &Vec<Arc<ArgSpec>>) -> (out: Vec<String>)
    ensures
        texts(out@) == references_in_args(arg_views(*args)),
    decreases arg_views(*args),
{
    let ghost all = arg_views(*args);
    let mut out: Vec<String> = Vec::new();
    let mut i: usize = 0;
    proof {
        assert(texts(out@) =~= Seq::<Seq<char>>::empty());
        assert(all.take(0) =~= Seq::<ArgView>::empty());
    }
    while i < args.len()
        invariant
            i <= args@.len(),
            all == arg_views(*args),
            texts(out@) == references_in_args(all.take(i as int)),
        decreases args@.len() - i,
    {
        proof {
            assert(all.take(i + 1).drop_last() =~= all.take(i as int));
            assert(all.take(i + 1).last() == all[i as int]);
            assert(decreases_to!(all => all[i as int]));
            assert(decreases_to!(all[i as int] => all[i as int].load_spec));
        }
        let more = collect_at(&args[i].load_spec);
        add_all(&mut out, more);
        i += 1;
    }
    proof {
        assert(all.take(all.len() as int) =~= all);
    }
    out
}

// ---------------------------------------------------------------------------
// Laws
// ---------------------------------------------------------------------------
/// A command keeps its names, whatever spec takes its place.
pub proof fn law_following_keeps_names(
    v: SpecView,
    library: LibraryView,
    stack: Seq<Seq<char>>,
    depth: nat,
)
    requires
        v.names.len() > 0,
    ensures
        resolved(v, library, stack, depth) matches Some(out) ==> out.names == v.names,
{
}

/// A reference back to a file that is being followed changes nothing but that
/// the reference is gone.
pub proof fn law_cycles_are_cut(
    v: SpecView,
    library: LibraryView,
    stack: Seq<Seq<char>>,
    depth: nat,
    reference: Seq<char>,
    path: Seq<char>,
)
    requires
        v.load_spec == Some(LoadView::Path(reference)),
        target_of(library.root, library.index, reference) == Some(path),
        is_among(stack, path),
    ensures
        replaced(v, library, stack, depth) == Some((SpecView { load_spec: None, ..v })),
{
}

/// A reference that leads nowhere changes nothing but that it is gone, and
/// leaves an argument as it is.
pub proof fn law_missing_references_are_harmless(
    v: SpecView,
    a: ArgView,
    library: LibraryView,
    stack: Seq<Seq<char>>,
    depth: nat,
    reference: Seq<char>,
)
    requires
        v.load_spec == Some(LoadView::Path(reference)),
        a.load_spec == Some(LoadView::Path(reference)),
        to_follow(library, stack, reference) is None,
    ensures
        replaced(v, library, stack, depth) == Some((SpecView { load_spec: None, ..v })),
        arg_resolved(a, library, stack, depth) == Some(a),
{
}

/// A file outside the index is always below the directory of specs.
pub proof fn law_targets_stay_inside(
    root: Seq<char>,
    index: Seq<(Seq<char>, Seq<char>)>,
    reference: Seq<char>,
)
    requires
        indexed_path(index, plain_reference(reference), 0) is None,
    ensures
        target_of(root, index, reference) matches Some(path) ==> exists|relative: Seq<char>|
            #[trigger] is_safe(relative) && path == path_joined(root, relative),
{
    if target_of(root, index, reference) is Some {
        assert(is_safe(json_file(plain_reference(reference))));
    }
}

} // verus!
