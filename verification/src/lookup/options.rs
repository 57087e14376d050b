//! Options on the command line: finding them in words, short-option chains,
//! attached values, and the arguments they take.
use std::sync::Arc;
use vstd::prelude::*;

use crate::ir::{find_named, spec_named, ArgSpec, OptionSpec, ParserDirectives, Spec};
use crate::text::{
    begins_with, chars_of, copy_texts, holds_text, index_from, index_of, is_at, opt_text, share,
    text_range, texts,
};

verus! {

// ---------------------------------------------------------------------------
// Parser directives
// ---------------------------------------------------------------------------
/// What parser directives say.
pub struct DirectivesView {
    pub options_first: Option<bool>,
    pub long_flags: Option<bool>,
    pub separators: Option<Seq<Seq<char>>>,
}

impl View for ParserDirectives {
    type V = DirectivesView;

    open spec fn view(&self) -> DirectivesView {
        DirectivesView {
            options_first: self.options_must_precede_arguments,
            long_flags: self.flags_are_posix_noncompliant,
            separators: match self.option_arg_separators {
                Some(list) => Some(texts(list@)),
                None => None,
            },
        }
    }
}

/// Directives that say nothing.
pub open spec fn no_directives() -> DirectivesView {
    DirectivesView { options_first: None, long_flags: None, separators: None }
}

/// The directives of a command on its own.
pub open spec fn own_directives(spec: Spec) -> DirectivesView {
    match spec.parser_directives {
        Some(directives) => directives@,
        None => no_directives(),
    }
}

/// The directives in a subcommand: its own if it has any, else the parent's.
pub open spec fn inherited(parent: DirectivesView, spec: Spec) -> DirectivesView {
    match spec.parser_directives {
        Some(directives) => directives@,
        None => parent,
    }
}

/// The directives in a loaded spec: each of its own where it is given, else
/// the parent's.
pub open spec fn merged(parent: DirectivesView, spec: Spec) -> DirectivesView {
    let own = own_directives(spec);
    DirectivesView {
        options_first: if own.options_first is Some {
            own.options_first
        } else {
            parent.options_first
        },
        long_flags: if own.long_flags is Some {
            own.long_flags
        } else {
            parent.long_flags
        },
        separators: if own.separators is Some {
            own.separators
        } else {
            parent.separators
        },
    }
}

fn copy_separators(list: &Option<Vec<String>>) -> (copy: Option<Vec<String>>)
    ensures
        (match copy {
            Some(out) => Some(texts(out@)),
            None => None,
        }) == (match *list {
            Some(list) => Some(texts(list@)),
            None => None,
        }),
{
    match list {
        Some(list) => Some(copy_texts(list)),
        None => None,
    }
}

/// Copies directives.
pub fn copy_directives(directives: &ParserDirectives) -> (copy: ParserDirectives)
    ensures
        copy@ == directives@,
{
    ParserDirectives {
        options_must_precede_arguments: directives.options_must_precede_arguments,
        flags_are_posix_noncompliant: directives.flags_are_posix_noncompliant,
        option_arg_separators: copy_separators(&directives.option_arg_separators),
    }
}

/// The directives that a command starts with.
pub fn root_directives(spec: &Spec) -> (directives: ParserDirectives)
    ensures
        directives@ == own_directives(*spec),
{
    match &spec.parser_directives {
        Some(directives) => copy_directives(directives),
        None => ParserDirectives {
            options_must_precede_arguments: None,
            flags_are_posix_noncompliant: None,
            option_arg_separators: None,
        },
    }
}

/// Computes [`merged`].
pub fn merge_parser_directives(parent: &ParserDirectives, spec: &Spec) -> (directives:
    ParserDirectives)
    ensures
        directives@ == merged(parent@, *spec),
{
    match &spec.parser_directives {
        None => copy_directives(parent),
        Some(own) => ParserDirectives {
            options_must_precede_arguments: if own.options_must_precede_arguments.is_some() {
                own.options_must_precede_arguments
            } else {
                parent.options_must_precede_arguments
            },
            flags_are_posix_noncompliant: if own.flags_are_posix_noncompliant.is_some() {
                own.flags_are_posix_noncompliant
            } else {
                parent.flags_are_posix_noncompliant
            },
            option_arg_separators: if own.option_arg_separators.is_some() {
                copy_separators(&own.option_arg_separators)
            } else {
                copy_separators(&parent.option_arg_separators)
            },
        },
    }
}

/// Computes [`inherited`].
pub fn inherit_subcommand_directives(parent: &ParserDirectives, spec: &Spec) -> (directives:
    ParserDirectives)
    ensures
        directives@ == inherited(parent@, *spec),
{
    match &spec.parser_directives {
        Some(own) => copy_directives(own),
        None => copy_directives(parent),
    }
}

/// A subcommand without directives parses as its parent does, and one level of
/// inheritance is enough: inheriting twice changes nothing.
pub proof fn law_directives_are_inherited(parent: DirectivesView, spec: Spec)
    ensures
        spec.parser_directives is None ==> inherited(parent, spec) == parent && merged(parent, spec)
            == parent,
        inherited(inherited(parent, spec), spec) == inherited(parent, spec),
        merged(merged(parent, spec), spec) == merged(parent, spec),
{
}

// ---------------------------------------------------------------------------
// Separators
// ---------------------------------------------------------------------------
/// Whether a character separates an option from its attached value.
pub open spec fn is_separator(directives: DirectivesView, c: char) -> bool {
    match directives.separators {
        None => c == '=',
        Some(list) => list.contains(seq![c]),
    }
}

/// The first separator in a word, from `i` on.
pub open spec fn separator_from(w: Seq<char>, directives: DirectivesView, i: int) -> Option<int>
    decreases w.len() - i,
{
    if i < 0 || i >= w.len() {
        None
    } else if is_separator(directives, w[i]) {
        Some(i)
    } else {
        separator_from(w, directives, i + 1)
    }
}

fn separates(directives: &ParserDirectives, c: char) -> (yes: bool)
    ensures
        yes == is_separator(directives@, c),
{
    match &directives.option_arg_separators {
        None => c == '=',
        Some(list) => {
            let mut one = String::new();
            one.push(c);
            proof {
                assert(one@ =~= seq![c]);
            }
            holds_text(list, &one)
        },
    }
}

/// The first separator of a word from `from` on.
pub fn separator_at(w: &[char], directives: &ParserDirectives, from: usize) -> (found: Option<
    usize,
>)
    ensures
        match found {
            Some(i) => separator_from(w@, directives@, from as int) == Some(i as int) && from <= i
                < w@.len(),
            None => separator_from(w@, directives@, from as int) is None,
        },
{
    let mut i: usize = from;
    while i < w.len()
        invariant
            from <= i,
            separator_from(w@, directives@, from as int) == separator_from(
                w@,
                directives@,
                i as int,
            ),
        decreases w@.len() - i,
    {
        if separates(directives, w[i]) {
            return Some(i);
        }
        i += 1;
    }
    None
}

// ---------------------------------------------------------------------------
// Finding options
// ---------------------------------------------------------------------------
/// The options in force: those of the command, then the persistent ones.
pub open spec fn options_in_force(
    own: Seq<Arc<OptionSpec>>,
    persistent: Seq<Arc<OptionSpec>>,
) -> Seq<Arc<OptionSpec>> {
    own + persistent
}

/// Builds [`options_in_force`].
pub fn gather_options(own: &[Arc<OptionSpec>], persistent: &[Arc<OptionSpec>]) -> (all: Vec<
    Arc<OptionSpec>,
>)
    ensures
        all@ == options_in_force(own@, persistent@),
{
    let mut all: Vec<Arc<OptionSpec>> = Vec::new();
    let mut i: usize = 0;
    while i < own.len()
        invariant
            i <= own@.len(),
            all@ == own@.take(i as int),
        decreases own@.len() - i,
    {
        all.push(share(&own[i]));
        i += 1;
    }
    let mut j: usize = 0;
    proof {
        assert(own@.take(own@.len() as int) =~= own@);
        assert(own@ + persistent@.take(0) =~= own@);
    }
    while j < persistent.len()
        invariant
            j <= persistent@.len(),
            all@ == own@ + persistent@.take(j as int),
        decreases persistent@.len() - j,
    {
        all.push(share(&persistent[j]));
        proof {
            assert(persistent@.take(j + 1) =~= persistent@.take(j as int).push(
                persistent@[j as int],
            ));
            assert(all@ =~= own@ + persistent@.take(j + 1));
        }
        j += 1;
    }
    proof {
        assert(persistent@.take(persistent@.len() as int) =~= persistent@);
    }
    all
}

/// The first option with a name, from `i` on.
pub open spec fn option_named(list: Seq<Arc<OptionSpec>>, name: Seq<char>, i: int) -> Option<int>
    decreases list.len() - i,
{
    if i < 0 || i >= list.len() {
        None
    } else if texts(list[i].names@).contains(name) {
        Some(i)
    } else {
        option_named(list, name, i + 1)
    }
}

/// The name part of an option word: what stands before the first separator.
pub open spec fn option_name(w: Seq<char>, directives: DirectivesView) -> Seq<char> {
    match separator_from(w, directives, 0) {
        Some(i) => w.take(i),
        None => w,
    }
}

/// The option that a word names.
pub open spec fn option_of(
    list: Seq<Arc<OptionSpec>>,
    w: Seq<char>,
    directives: DirectivesView,
) -> Option<int> {
    option_named(list, option_name(w, directives), 0)
}

/// Computes [`option_of`].
pub fn find_option_in(list: &[Arc<OptionSpec>], w: &[char], directives: &ParserDirectives) -> (found:
    Option<usize>)
    ensures
        match found {
            Some(i) => option_of(list@, w@, directives@) == Some(i as int) && i < list@.len(),
            None => option_of(list@, w@, directives@) is None,
        },
{
    let end = match separator_at(w, directives, 0) {
        Some(i) => i,
        None => w.len(),
    };
    let name = text_range(w, 0, end);
    proof {
        assert(w@.subrange(0, end as int) =~= w@.take(end as int));
        assert(w@.take(w@.len() as int) =~= w@);
    }
    let mut i: usize = 0;
    while i < list.len()
        invariant
            i <= list@.len(),
            name@ == option_name(w@, directives@),
            option_of(list@, w@, directives@) == option_named(list@, name@, i as int),
        decreases list@.len() - i,
    {
        if holds_text(&list[i].names, &name) {
            return Some(i);
        }
        i += 1;
    }
    None
}

/// Whether a name is a short option: a dash and one other character.
pub open spec fn is_short(name: Seq<char>) -> bool {
    name.len() == 2 && name[0] == '-' && name[1] != '-'
}

/// Whether one of the names is the short option with the letter.
pub open spec fn has_letter(names: Seq<Seq<char>>, letter: char) -> bool {
    letter != '-' && names.contains(seq!['-', letter])
}

/// The first option with a short name for the letter, from `i` on.
pub open spec fn short_option(list: Seq<Arc<OptionSpec>>, letter: char, i: int) -> Option<int>
    decreases list.len() - i,
{
    if i < 0 || i >= list.len() {
        None
    } else if has_letter(texts(list[i].names@), letter) {
        Some(i)
    } else {
        short_option(list, letter, i + 1)
    }
}

/// Computes [`short_option`].
pub fn find_short_option_in(list: &[Arc<OptionSpec>], letter: char) -> (found: Option<usize>)
    ensures
        match found {
            Some(i) => short_option(list@, letter, 0) == Some(i as int) && i < list@.len(),
            None => short_option(list@, letter, 0) is None,
        },
{
    let mut name = String::new();
    name.push('-');
    name.push(letter);
    proof {
        assert(name@ =~= seq!['-', letter]);
    }
    let mut i: usize = 0;
    while i < list.len()
        invariant
            i <= list@.len(),
            name@ == seq!['-', letter],
            short_option(list@, letter, 0) == short_option(list@, letter, i as int),
        decreases list@.len() - i,
    {
        if letter != '-' && holds_text(&list[i].names, &name) {
            return Some(i);
        }
        i += 1;
    }
    None
}

/// The first short name of an option, from `i` on.
pub open spec fn short_name(names: Seq<Seq<char>>, i: int) -> Option<Seq<char>>
    decreases names.len() - i,
{
    if i < 0 || i >= names.len() {
        None
    } else if is_short(names[i]) {
        Some(names[i])
    } else {
        short_name(names, i + 1)
    }
}

/// Computes [`short_name`].
pub fn short_option_name(option: &OptionSpec) -> (name: Option<String>)
    ensures
        opt_text(name) == short_name(texts(option.names@), 0),
{
    let ghost names = texts(option.names@);
    let mut i: usize = 0;
    while i < option.names.len()
        invariant
            i <= option.names@.len(),
            names == texts(option.names@),
            short_name(names, 0) == short_name(names, i as int),
        decreases option.names@.len() - i,
    {
        let w = chars_of(&option.names[i]);
        if w.len() == 2 && w[0] == '-' && w[1] != '-' {
            return Some(option.names[i].clone());
        }
        i += 1;
    }
    None
}

/// Whether an option's first argument has to be given.
pub open spec fn needs_value(args: Seq<Arc<ArgSpec>>) -> bool {
    args.len() > 0 && !args[0].is_optional
}

/// Computes [`needs_value`].
pub fn first_is_mandatory(args: &[Arc<ArgSpec>]) -> (yes: bool)
    ensures
        yes == needs_value(args@),
{
    args.len() > 0 && !args[0].is_optional
}

// ---------------------------------------------------------------------------
// Option words
// ---------------------------------------------------------------------------
/// The short options in one word (`-amfoo`).
#[derive(Clone, Copy, Debug)]
pub struct ShortOptionChain {
    /// The last option of the chain, by its place among the options in force.
    pub option: usize,
    /// The length of the part taken by the options, without a value (`-am`).
    pub prefix: usize,
    /// Where an attached value begins.
    pub value: Option<usize>,
}

/// What an option word means.
#[derive(Clone, Copy, Debug)]
pub struct ResolvedOptionToken {
    /// The option, by its place among the options in force.
    pub option: usize,
    /// Where an attached value begins.
    pub value: Option<usize>,
    /// The separator before the value, unless the word is a chain.
    pub separator: Option<char>,
    /// The length of the option part of a chain.
    pub chain: Option<usize>,
}

/// The chain of short options in a word from position `i` on.
pub open spec fn chain_from(list: Seq<Arc<OptionSpec>>, w: Seq<char>, i: int) -> Option<
    ShortOptionChain,
>
    decreases w.len() - i,
{
    if i < 0 || i >= w.len() {
        None
    } else {
        match short_option(list, w[i], 0) {
            None => None,
            Some(o) => {
                let args = list[o].args@;
                if i + 1 == w.len() {
                    Some(
                        ShortOptionChain {
                            option: o as usize,
                            prefix: (i + 1) as usize,
                            value: None,
                        },
                    )
                } else if args.len() > 0 && (needs_value(args) || w[i + 1] == '=' || short_option(
                    list,
                    w[i + 1],
                    0,
                ) is None) {
                    Some(
                        ShortOptionChain {
                            option: o as usize,
                            prefix: (i + 1) as usize,
                            value: Some(
                                if w[i + 1] == '=' {
                                    (i + 2) as usize
                                } else {
                                    (i + 1) as usize
                                },
                            ),
                        },
                    )
                } else {
                    chain_from(list, w, i + 1)
                }
            },
        }
    }
}

/// Whether a word begins with two dashes.
pub open spec fn is_long(w: Seq<char>) -> bool {
    w.len() >= 2 && w[0] == '-' && w[1] == '-'
}

/// Whether a word begins with a dash.
pub open spec fn is_dashed(w: Seq<char>) -> bool {
    w.len() > 0 && w[0] == '-'
}

/// Whether a word can be a chain: one dash and at least two letters, where
/// single-dash words are not long options.
pub open spec fn may_chain(w: Seq<char>, directives: DirectivesView) -> bool {
    directives.long_flags != Some(true) && is_dashed(w) && !is_long(w) && w.len() >= 3
}

/// The short-option chain that a word is.
pub open spec fn chain_of(
    list: Seq<Arc<OptionSpec>>,
    w: Seq<char>,
    directives: DirectivesView,
) -> Option<ShortOptionChain> {
    if may_chain(w, directives) {
        chain_from(list, w, 1)
    } else {
        None
    }
}

pub proof fn lemma_chain_bounds(list: Seq<Arc<OptionSpec>>, w: Seq<char>, i: int)
    requires
        w.len() <= usize::MAX,
        list.len() <= usize::MAX,
    ensures
        chain_from(list, w, i) matches Some(chain) ==> chain.option < list.len() && chain.prefix
            <= w.len() && (chain.value matches Some(v) ==> v <= w.len()),
    decreases w.len() - i,
{
    if 0 <= i < w.len() {
        lemma_short_bounds(list, w[i], 0);
        lemma_chain_bounds(list, w, i + 1);
    }
}

pub proof fn lemma_short_bounds(list: Seq<Arc<OptionSpec>>, letter: char, i: int)
    ensures
        short_option(list, letter, i) matches Some(o) ==> 0 <= o < list.len(),
    decreases list.len() - i,
{
    if 0 <= i < list.len() {
        lemma_short_bounds(list, letter, i + 1);
    }
}

/// Computes [`chain_of`].
pub fn parse_short_option_chain(
    list: &[Arc<OptionSpec>],
    w: &[char],
    directives: &ParserDirectives,
) -> (chain: Option<ShortOptionChain>)
    ensures
        chain == chain_of(list@, w@, directives@),
        chain matches Some(c) ==> c.option < list@.len() && c.prefix <= w@.len() && (c.value
            matches Some(v) ==> v <= w@.len()),
{
    let n = w.len();
    let count = list.len();
    if directives.flags_are_posix_noncompliant == Some(true) || n < 3 || w[0] != '-' || w[1]
        == '-' {
        return None;
    }
    proof {
        lemma_chain_bounds(list@, w@, 1);
    }
    let mut i: usize = 1;
    while i < n
        invariant
            1 <= i <= n,
            n == w@.len(),
            may_chain(w@, directives@),
            chain_of(list@, w@, directives@) == chain_from(list@, w@, i as int),
            chain_of(list@, w@, directives@) matches Some(c) ==> c.option < list@.len() && c.prefix
                <= w@.len() && (c.value matches Some(v) ==> v <= w@.len()),
        decreases n - i,
    {
        match find_short_option_in(list, w[i]) {
            None => {
                return None;
            },
            Some(o) => {
                if i + 1 == n {
                    return Some(ShortOptionChain { option: o, prefix: i + 1, value: None });
                }
                if list[o].args.len() > 0 && (first_is_mandatory(&list[o].args) || w[i + 1] == '='
                    || find_short_option_in(list, w[i + 1]).is_none()) {
                    let value: usize = if w[i + 1] == '=' {
                        i + 2
                    } else {
                        i + 1
                    };
                    return Some(
                        ShortOptionChain { option: o, prefix: i + 1, value: Some(value) },
                    );
                }
            },
        }
        i += 1;
    }
    None
}

/// What an option word means. Where single-dash words can be chains, a chain
/// comes before an option of the whole name.
pub open spec fn resolved(
    list: Seq<Arc<OptionSpec>>,
    w: Seq<char>,
    directives: DirectivesView,
) -> Option<ResolvedOptionToken> {
    match chain_of(list, w, directives) {
        Some(chain) => Some(
            ResolvedOptionToken {
                option: chain.option,
                value: chain.value,
                separator: None,
                chain: Some(chain.prefix),
            },
        ),
        None => match option_of(list, w, directives) {
            None => None,
            Some(o) => Some(
                match separator_from(w, directives, 0) {
                    Some(i) if list[o].args@.len() > 0 => ResolvedOptionToken {
                        option: o as usize,
                        value: Some((i + 1) as usize),
                        separator: Some(w[i]),
                        chain: None,
                    },
                    _ => ResolvedOptionToken {
                        option: o as usize,
                        value: None,
                        separator: None,
                        chain: None,
                    },
                },
            ),
        },
    }
}

/// Computes [`resolved`].
pub fn resolve_option_token(
    list: &[Arc<OptionSpec>],
    w: &[char],
    directives: &ParserDirectives,
) -> (found: Option<ResolvedOptionToken>)
    ensures
        found == resolved(list@, w@, directives@),
        found matches Some(r) ==> r.option < list@.len() && (r.value matches Some(v) ==> v
            <= w@.len()) && (r.chain matches Some(c) ==> c <= w@.len()),
{
    let n = w.len();
    let count = list.len();
    if let Some(chain) = parse_short_option_chain(list, w, directives) {
        return Some(
            ResolvedOptionToken {
                option: chain.option,
                value: chain.value,
                separator: None,
                chain: Some(chain.prefix),
            },
        );
    }
    let option = match find_option_in(list, w, directives) {
        None => {
            return None;
        },
        Some(option) => option,
    };
    match separator_at(w, directives, 0) {
        Some(i) => {
            if list[option].args.len() > 0 {
                return Some(
                    ResolvedOptionToken {
                        option,
                        value: Some(i + 1),
                        separator: Some(w[i]),
                        chain: None,
                    },
                );
            }
        },
        None => {},
    }
    Some(ResolvedOptionToken { option, value: None, separator: None, chain: None })
}

/// The options of a short chain from position `i` on, up to one that ends it.
pub open spec fn letters_from(
    list: Seq<Arc<OptionSpec>>,
    w: Seq<char>,
    directives: DirectivesView,
    i: int,
) -> Seq<Arc<OptionSpec>>
    decreases w.len() - i,
{
    if i < 0 || i >= w.len() {
        Seq::empty()
    } else {
        match short_option(list, w[i], 0) {
            None => Seq::empty(),
            Some(o) => if needs_value(list[o].args@) || separator_from(w, directives, i + 1)
                is Some || (i + 1 < w.len() && short_option(list, w[i + 1], 0) is None) {
                seq![list[o]]
            } else {
                seq![list[o]] + letters_from(list, w, directives, i + 1)
            },
        }
    }
}

/// Every option that a completed word passes. A chain passes each of its
/// letters (`-ab` passes both `-a` and `-b`).
pub open spec fn passed_by(
    list: Seq<Arc<OptionSpec>>,
    w: Seq<char>,
    directives: DirectivesView,
) -> Seq<Arc<OptionSpec>> {
    if w == "--"@ || !is_dashed(w) {
        Seq::empty()
    } else if is_long(w) || directives.long_flags == Some(true) {
        match option_of(list, w, directives) {
            Some(o) => seq![list[o]],
            None => Seq::empty(),
        }
    } else {
        letters_from(list, w, directives, 1)
    }
}

/// Computes [`passed_by`].
pub fn options_in_token(
    list: &[Arc<OptionSpec>],
    w: &[char],
    directives: &ParserDirectives,
) -> (out: Vec<Arc<OptionSpec>>)
    ensures
        out@ == passed_by(list@, w@, directives@),
{
    let mut out: Vec<Arc<OptionSpec>> = Vec::new();
    proof {
        reveal_strlit("--");
        if w@.len() == 2 && w@[0] == '-' && w@[1] == '-' {
            assert(w@ =~= "--"@);
        }
    }
    if w.len() == 0 || w[0] != '-' || (w.len() == 2 && w[1] == '-') {
        return out;
    }
    let long = w.len() >= 2 && w[1] == '-';
    if long || directives.flags_are_posix_noncompliant == Some(true) {
        if let Some(o) = find_option_in(list, w, directives) {
            out.push(share(&list[o]));
            proof {
                assert(out@ =~= seq![list@[o as int]]);
            }
        }
        return out;
    }
    let mut i: usize = 1;
    let ghost wanted = letters_from(list@, w@, directives@, 1);
    proof {
        assert(out@ + wanted =~= wanted);
    }
    while i < w.len()
        invariant_except_break
            out@ + letters_from(list@, w@, directives@, i as int) == wanted,
        invariant
            1 <= i <= w@.len(),
            wanted == letters_from(list@, w@, directives@, 1),
        ensures
            out@ == wanted,
        decreases w@.len() - i,
    {
        let ghost had = out@;
        match find_short_option_in(list, w[i]) {
            None => {
                proof {
                    assert(out@ + Seq::<Arc<OptionSpec>>::empty() =~= out@);
                }
                break;
            },
            Some(o) => {
                out.push(share(&list[o]));
                proof {
                    assert(out@ =~= had + seq![list@[o as int]]);
                    assert(had + (seq![list@[o as int]] + letters_from(
                        list@,
                        w@,
                        directives@,
                        i + 1,
                    )) =~= out@ + letters_from(list@, w@, directives@, i + 1));
                }
                if first_is_mandatory(&list[o].args) || separator_at(
                    w,
                    directives,
                    i + 1,
                ).is_some() || (i + 1 < w.len() && find_short_option_in(list, w[i + 1]).is_none()) {
                    break;
                }
            },
        }
        i += 1;
        proof {
            assert(out@ + Seq::<Arc<OptionSpec>>::empty() =~= out@);
        }
    }
    out
}

/// The raw text of an attached value, given the raw shell word: behind the
/// chain's options and an `=`, or behind the separator. Where the raw word
/// does not show it, the value itself.
pub open spec fn raw_value(
    raw: Seq<char>,
    w: Seq<char>,
    r: ResolvedOptionToken,
    value: Seq<char>,
) -> Seq<char> {
    match (r.chain, r.separator) {
        (Some(prefix), _) => if begins_with(raw, w.take(prefix as int)) {
            if prefix < raw.len() && raw[prefix as int] == '=' {
                raw.skip(prefix + 1)
            } else {
                raw.skip(prefix as int)
            }
        } else {
            value
        },
        (None, Some(separator)) => {
            let i = index_from(raw, separator, 0);
            if i < raw.len() {
                raw.skip(i + 1)
            } else {
                value
            }
        },
        (None, None) => value,
    }
}

/// Computes [`raw_value`].
pub fn attached_search_term(
    raw_query: &str,
    w: &[char],
    resolved: ResolvedOptionToken,
    fallback: &str,
) -> (term: String)
    requires
        resolved.chain matches Some(c) ==> c <= w@.len(),
    ensures
        term@ == raw_value(raw_query@, w@, resolved, fallback@),
{
    let raw = chars_of(raw_query);
    let n = raw.len();
    match resolved.chain {
        Some(prefix) => {
            let head_text = text_range(w, 0, prefix);
            let head = chars_of(&head_text);
            proof {
                assert(w@.subrange(0, prefix as int) =~= w@.take(prefix as int));
            }
            if !is_at(&raw, &head, 0) {
                return fallback.to_owned();
            }
            if prefix < n && raw[prefix] == '=' {
                proof {
                    assert(raw@.skip(prefix + 1) =~= raw@.subrange(prefix + 1, n as int));
                }
                return text_range(&raw, prefix + 1, n);
            }
            proof {
                assert(raw@.skip(prefix as int) =~= raw@.subrange(prefix as int, n as int));
            }
            text_range(&raw, prefix, n)
        },
        None => match resolved.separator {
            None => fallback.to_owned(),
            Some(separator) => {
                let i = index_of(&raw, separator, 0);
                if i < n {
                    proof {
                        assert(raw@.skip(i + 1) =~= raw@.subrange(i + 1, n as int));
                    }
                    text_range(&raw, i + 1, n)
                } else {
                    fallback.to_owned()
                }
            },
        },
    }
}

/// Whether the word behind an option is its value: never a dashed word; always
/// where the value is mandatory; else unless it names a subcommand.
pub open spec fn takes_value(spec: Spec, args: Seq<Arc<ArgSpec>>, next: Seq<char>) -> bool {
    !is_dashed(next) && (needs_value(args) || spec_named(spec.subcommands@, next, 0) is None)
}

/// Computes [`takes_value`].
pub fn should_consume_option_value(spec: &Spec, option: &OptionSpec, next: &str) -> (yes: bool)
    ensures
        yes == takes_value(*spec, option.args@, next@),
{
    let w = chars_of(next);
    if w.len() > 0 && w[0] == '-' {
        return false;
    }
    first_is_mandatory(&option.args) || find_named(&spec.subcommands, next).is_none()
}

// ---------------------------------------------------------------------------
// Persistent options
// ---------------------------------------------------------------------------
/// Whether two options share a name.
pub open spec fn share_name(a: OptionSpec, b: OptionSpec) -> bool {
    exists|i: int|
        0 <= i < a.names@.len() && texts(b.names@).contains(#[trigger] texts(a.names@)[i])
}

/// Computes [`share_name`].
pub fn options_are_equal(a: &OptionSpec, b: &OptionSpec) -> (yes: bool)
    ensures
        yes == share_name(*a, *b),
{
    let mut i: usize = 0;
    while i < a.names.len()
        invariant
            i <= a.names@.len(),
            forall|k: int|
                0 <= k < i ==> !texts(b.names@).contains(#[trigger] texts(a.names@)[k]),
        decreases a.names@.len() - i,
    {
        if holds_text(&b.names, &a.names[i]) {
            proof {
                assert(texts(b.names@).contains(texts(a.names@)[i as int]));
            }
            return true;
        }
        i += 1;
    }
    false
}

/// The first option of the list that shares a name with the given one.
pub open spec fn equal_option(list: Seq<Arc<OptionSpec>>, option: OptionSpec, i: int) -> Option<int>
    decreases list.len() - i,
{
    if i < 0 || i >= list.len() {
        None
    } else if share_name(*list[i], option) {
        Some(i)
    } else {
        equal_option(list, option, i + 1)
    }
}

/// The persistent options of a command: the parent's, each replaced by the
/// command's option of the same name, then the command's new ones.
pub open spec fn persistent_in(
    parent: Seq<Arc<OptionSpec>>,
    own: Seq<Arc<OptionSpec>>,
) -> Seq<Arc<OptionSpec>>
    decreases own.len(),
{
    if own.len() == 0 {
        parent
    } else {
        let done = persistent_in(parent, own.drop_last());
        match equal_option(done, *own.last(), 0) {
            Some(i) => done.update(i, own.last()),
            None => done.push(own.last()),
        }
    }
}

/// Computes [`persistent_in`].
pub fn merge_persistent_options(parent: &[Arc<OptionSpec>], spec: &Spec) -> (out: Vec<
    Arc<OptionSpec>,
>)
    ensures
        out@ == persistent_in(parent@, spec.persistent_options@),
{
    let none: Vec<Arc<OptionSpec>> = Vec::new();
    let mut out = gather_options(parent, &none);
    let ghost own = spec.persistent_options@;
    proof {
        assert(out@ =~= parent@);
        assert(own.take(0) =~= Seq::<Arc<OptionSpec>>::empty());
    }
    let mut i: usize = 0;
    while i < spec.persistent_options.len()
        invariant
            i <= spec.persistent_options@.len(),
            own == spec.persistent_options@,
            out@ == persistent_in(parent@, own.take(i as int)),
        decreases spec.persistent_options@.len() - i,
    {
        let option = &spec.persistent_options[i];
        let ghost done = out@;
        proof {
            assert(own.take(i + 1).drop_last() =~= own.take(i as int));
            assert(own.take(i + 1).last() == *option);
        }
        let mut j: usize = 0;
        while j < out.len() && !options_are_equal(&out[j], option)
            invariant
                j <= out@.len(),
                out@ == done,
                equal_option(done, **option, 0) == equal_option(done, **option, j as int),
            decreases out@.len() - j,
        {
            j += 1;
        }
        if j < out.len() {
            out.set(j, share(option));
        } else {
            out.push(share(option));
        }
        i += 1;
    }
    proof {
        assert(own.take(own.len() as int) =~= own);
    }
    out
}

// ---------------------------------------------------------------------------
// Positional arguments
// ---------------------------------------------------------------------------
/// Whether an argument says nothing about what it takes.
pub open spec fn is_placeholder(arg: ArgSpec) -> bool {
    &&& arg.name@.len() == 0
    &&& arg.description@.len() == 0
    &&& arg.builtin is None
    &&& arg.builtins@.len() == 0
    &&& arg.script@.len() == 0
    &&& arg.templates@.len() == 0
    &&& arg.suggestions@.len() == 0
    &&& !arg.is_command
    &&& !arg.is_script
    &&& arg.is_module is None
}

/// The argument that takes the positional word with the given number: the one
/// at that place, or the last where it is variadic. A placeholder counts only
/// where it is variadic.
pub open spec fn arg_slot(args: Seq<Arc<ArgSpec>>, index: int) -> Option<int> {
    let at = if index < args.len() {
        index
    } else {
        args.len() - 1
    };
    if args.len() == 0 || index < 0 || (index >= args.len() && !args[at].is_variadic) {
        None
    } else if is_placeholder(*args[at]) && !args[at].is_variadic {
        None
    } else {
        Some(at)
    }
}

/// Computes [`arg_slot`].
pub fn positional_arg(args: &[Arc<ArgSpec>], index: usize) -> (slot: Option<usize>)
    ensures
        match slot {
            Some(at) => arg_slot(args@, index as int) == Some(at as int) && at < args@.len(),
            None => arg_slot(args@, index as int) is None,
        },
{
    if args.len() == 0 {
        return None;
    }
    let at: usize = if index < args.len() {
        index
    } else {
        args.len() - 1
    };
    let arg = &args[at];
    if index >= args.len() && !arg.is_variadic {
        return None;
    }
    let placeholder = arg.name.as_str().is_empty() && arg.description.as_str().is_empty()
        && arg.builtin.is_none() && arg.builtins.is_empty() && arg.script.is_empty()
        && arg.templates.is_empty() && arg.suggestions.is_empty() && !arg.is_command
        && !arg.is_script && arg.is_module.is_none();
    if placeholder && !arg.is_variadic {
        return None;
    }
    Some(at)
}

} // verus!
