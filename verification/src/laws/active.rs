//! Laws of the argument under the caret.
use std::sync::Arc;

use vstd::prelude::*;

use super::walk::{
    has_dashed_names, is_dashed_option, is_plain_arg, is_settled,
    law_persistent_options_are_gathered, law_subcommand_names_are_walked,
    law_words_fill_the_arguments, names_flag, names_nothing, names_subcommand,
};
use crate::ir::{ArgSpec, OptionSpec, Spec};
use crate::lookup::active::{
    completed_words, context_of, reading_behind, ActiveView, Reading, ScanStep, Scanned,
};
use crate::lookup::options::{
    is_dashed, option_name, option_named, resolved, separator_from, DirectivesView,
};
use crate::lookup::walk::{walk_from, walk_start, SpecAnswers};
use crate::text::texts;

verus! {

/// All arguments are read where they stand, and each takes one word.
pub open spec fn takes_single_words(args: Seq<Arc<ArgSpec>>) -> bool {
    forall|i: int|
        0 <= i < args.len() ==> is_plain_arg(*(#[trigger] args[i])) && !args[i].is_variadic
}

proof fn lemma_undashed(list: Seq<Arc<OptionSpec>>, word: Seq<char>, i: int)
    requires
        0 <= i,
        has_dashed_names(list),
        !is_dashed(word),
    ensures
        option_named(list, word, i) is None,
    decreases list.len() - i,
{
    if i < list.len() {
        let names = texts(list[i].names@);
        if names.contains(word) {
            let n = choose|n: int| 0 <= n < names.len() && names[n] == word;
            assert(is_dashed_option(*list[i]));
            assert(is_dashed(texts(list[i].names@)[n]));
        }
        lemma_undashed(list, word, i + 1);
    }
}

proof fn lemma_separator_inside(w: Seq<char>, directives: DirectivesView, i: int)
    requires
        0 <= i,
    ensures
        separator_from(w, directives, i) matches Some(k) ==> i <= k < w.len(),
    decreases w.len() - i,
{
    if i < w.len() {
        lemma_separator_inside(w, directives, i + 1);
    }
}

/// A word that does not begin with a dash is no option.
proof fn lemma_no_option(list: Seq<Arc<OptionSpec>>, word: Seq<char>, directives: DirectivesView)
    requires
        has_dashed_names(list),
        !is_dashed(word),
    ensures
        resolved(list, word, directives) is None,
{
    lemma_separator_inside(word, directives, 0);
    let name = option_name(word, directives);
    if name.len() > 0 {
        assert(name[0] == word[0]);
    }
    lemma_undashed(list, name, 0);
}

proof fn lemma_words_counted(reading: Reading, at: Scanned, limit: int)
    requires
        takes_single_words(reading.spec.args@),
        at.option_arg is None,
        0 <= at.index <= limit <= reading.tokens.len(),
        0 <= at.positional,
        at.variadic == 0,
        forall|i: int| at.index <= i < limit ==> !is_dashed(#[trigger] reading.tokens[i]),
    ensures
        reading.scan(at, limit) == ScanStep::Go(
            Scanned {
                positional: at.positional + (limit - at.index),
                index: limit,
                entered: at.entered || at.index < limit,
                ..at
            },
        ),
    decreases limit - at.index,
{
    if at.index < limit {
        let token = reading.tokens[at.index];
        assert(!is_dashed(token));
        reveal_strlit("--");
        let args = reading.spec.args@;
        if at.positional < args.len() {
            assert(is_plain_arg(*args[at.positional]));
        } else if args.len() > 0 {
            assert(is_plain_arg(*args[args.len() - 1]));
        }
        let next = reading.counted(at);
        assert(reading.step(at, limit) == ScanStep::Go(next));
        lemma_words_counted(reading, next, limit);
    }
}

/// Behind `m` words the argument at place `m` is under the caret, with what is typed
/// of it; behind the last argument there is none.
pub proof fn law_words_lead_to_the_next_argument(
    reading: Reading,
    path_end: int,
    ends_with_space: bool,
    m: int,
)
    requires
        takes_single_words(reading.spec.args@),
        has_dashed_names(reading.options),
        0 <= path_end,
        0 <= m,
        completed_words(reading.tokens, ends_with_space) == path_end + m,
        forall|i: int| path_end <= i < reading.tokens.len() ==> !is_dashed(#[trigger] reading.tokens[i]),
    ensures
        reading.active(path_end, ends_with_space) == if m < reading.spec.args@.len() {
            Some(
                ActiveView {
                    arg: reading.spec.args@[m],
                    query: reading.query,
                    search_term: reading.raw,
                    exclusive: false,
                },
            )
        } else {
            None
        },
{
    let limit = completed_words(reading.tokens, ends_with_space);
    let start = Scanned {
        positional: 0,
        index: path_end,
        after_dashes: exists|i: int|
            0 <= i < path_end && i < reading.tokens.len() && #[trigger] reading.tokens[i] == "--"@,
        option_arg: None,
        entered: false,
        variadic: 0,
    };
    lemma_words_counted(reading, start, limit);
    let args = reading.spec.args@;
    if m < args.len() {
        assert(is_plain_arg(*args[m]));
    } else if args.len() > 0 {
        assert(is_plain_arg(*args[args.len() - 1]));
    }
    if !ends_with_space && reading.tokens.len() > 0 {
        let token = reading.tokens.last();
        assert(!is_dashed(reading.tokens[reading.tokens.len() - 1]));
        lemma_no_option(reading.options, token, reading.directives);
    }
}

proof fn lemma_variadic_counted(reading: Reading, at: Scanned, limit: int)
    requires
        reading.spec.args@.len() > 0,
        reading.spec.args@.last().is_variadic,
        at.option_arg is None,
        0 <= at.index <= limit <= reading.tokens.len(),
        at.positional == reading.spec.args@.len() - 1,
        forall|i: int| at.index <= i < limit ==> !is_dashed(#[trigger] reading.tokens[i]),
    ensures
        reading.scan(at, limit) is Go,
        reading.scan(at, limit)->Go_0.positional == at.positional,
        reading.scan(at, limit)->Go_0.option_arg is None,
    decreases limit - at.index,
{
    if at.index < limit {
        let token = reading.tokens[at.index];
        assert(!is_dashed(token));
        reveal_strlit("--");
        let next = reading.counted(at);
        assert(reading.step(at, limit) == ScanStep::Go(next));
        lemma_variadic_counted(reading, next, limit);
    }
}

/// A last argument that takes many words stays under the caret, however many there
/// are already.
pub proof fn law_variadic_arguments_take_every_word(
    reading: Reading,
    path_end: int,
    ends_with_space: bool,
)
    requires
        reading.spec.args@.len() == 1,
        reading.spec.args@[0].is_variadic,
        has_dashed_names(reading.options),
        0 <= path_end <= completed_words(reading.tokens, ends_with_space),
        forall|i: int| path_end <= i < reading.tokens.len() ==> !is_dashed(#[trigger] reading.tokens[i]),
    ensures
        reading.active(path_end, ends_with_space) == Some(
            ActiveView {
                arg: reading.spec.args@[0],
                query: reading.query,
                search_term: reading.raw,
                exclusive: false,
            },
        ),
{
    let limit = completed_words(reading.tokens, ends_with_space);
    let start = Scanned {
        positional: 0,
        index: path_end,
        after_dashes: exists|i: int|
            0 <= i < path_end && i < reading.tokens.len() && #[trigger] reading.tokens[i] == "--"@,
        option_arg: None,
        entered: false,
        variadic: 0,
    };
    lemma_variadic_counted(reading, start, limit);
    if !ends_with_space && reading.tokens.len() > 0 {
        let token = reading.tokens.last();
        if path_end < reading.tokens.len() {
            assert(!is_dashed(reading.tokens[reading.tokens.len() - 1]));
            lemma_no_option(reading.options, token, reading.directives);
        }
    }
}

/// No two dashes end the options before the command's own words.
pub open spec fn is_open_for_options(reading: Reading, path_end: int) -> bool {
    forall|i: int|
        0 <= i < path_end && i < reading.tokens.len() ==> #[trigger] reading.tokens[i] != "--"@
}

/// The value of an option is under the caret right behind the option: nothing else
/// is offered, unless the value may be left out.
pub proof fn law_option_values_are_completed(
    reading: Reading,
    path_end: int,
    ends_with_space: bool,
    option: Arc<OptionSpec>,
)
    requires
        is_open_for_options(reading, path_end),
        takes_single_words(reading.spec.args@),
        reading.options.len() <= usize::MAX,
        0 <= path_end,
        completed_words(reading.tokens, ends_with_space) == path_end + 1,
        names_flag(reading.options, reading.tokens[path_end], option, reading.directives),
        option.args@.len() > 0,
    ensures
        reading.active(path_end, ends_with_space) == Some(
            ActiveView {
                arg: option.args@[0],
                query: reading.query,
                search_term: reading.raw,
                exclusive: !option.args@[0].is_optional,
            },
        ),
{
    let limit = completed_words(reading.tokens, ends_with_space);
    let start = Scanned {
        positional: 0,
        index: path_end,
        after_dashes: false,
        option_arg: None,
        entered: false,
        variadic: 0,
    };
    super::walk::lemma_flag(
        reading.options,
        reading.tokens[path_end],
        option,
        reading.directives,
    );
    reveal_strlit("--");
    let args = reading.spec.args@;
    if args.len() > 0 {
        assert(is_plain_arg(*args[0]));
    }
    assert(reading.step(start, limit) is Found);
}

/// The words behind a chain of subcommands fill the arguments of the last one: the
/// next argument is under the caret, and none where they are all filled.
pub proof fn law_arguments_are_found_behind_subcommands(
    answers: SpecAnswers,
    root: Arc<Spec>,
    tokens: Seq<Seq<char>>,
    ends_with_space: bool,
    query: Seq<char>,
    raw: Seq<char>,
    chain: Seq<Arc<Spec>>,
    last: Arc<Spec>,
    m: int,
)
    requires
        is_settled(answers, *root),
        0 <= m,
        completed_words(tokens, ends_with_space) == 1 + chain.len() + m,
        forall|i: int| 0 <= i < chain.len() ==> is_settled(answers, *(#[trigger] chain[i])),
        forall|i: int| 1 <= i < tokens.len() ==> !is_dashed(#[trigger] tokens[i]),
        chain.len() > 0 ==> names_subcommand(*root, tokens[1], chain[0]),
        forall|i: int|
            0 < i < chain.len() ==> names_subcommand(
                *chain[i - 1],
                tokens[i + 1],
                #[trigger] chain[i],
            ),
        last == if chain.len() == 0 {
            root
        } else {
            chain.last()
        },
        takes_single_words(last.args@),
        m <= last.args@.len(),
        m > 0 ==> names_nothing(*last, tokens[1 + chain.len() as int]),
        has_dashed_names(root.persistent_options@),
        forall|i: int|
            0 <= i < chain.len() ==> has_dashed_names((#[trigger] chain[i]).persistent_options@),
        has_dashed_names(last.options@),
    ensures
        context_of(answers, root, tokens, ends_with_space, query, raw) is Done,
        ({
            let context = context_of(answers, root, tokens, ends_with_space, query, raw)->Done_0;
            &&& context.spec == last
            &&& context.passed.len() == 0
            &&& context.active == if m < last.args@.len() {
                Some(ActiveView { arg: last.args@[m], query, search_term: raw, exclusive: false })
            } else {
                None
            }
        }),
{
    let limit = completed_words(tokens, ends_with_space);
    let w = walk_start(answers, root)->Done_0;
    assert forall|i: int| 0 <= i < chain.len() implies !is_dashed(#[trigger] tokens[w.index + i]) by {
        assert(!is_dashed(tokens[i + 1]));
    }
    assert forall|i: int| 0 < i < chain.len() implies names_subcommand(
        *chain[i - 1],
        #[trigger] tokens[w.index + i],
        chain[i],
    ) by {
        assert(chain[i] == chain[i]);
    }
    let none = Seq::<Arc<OptionSpec>>::empty();
    law_persistent_options_are_gathered(none, root.persistent_options@);
    let at = law_subcommand_names_are_walked(answers, w, tokens, limit, chain);
    assert(at.current == last);
    law_words_fill_the_arguments(answers, at, tokens, limit);
    let end = walk_from(answers, at, tokens, limit)->Done_0;
    let reading = reading_behind(end, tokens, query, raw);
    let options = reading.options;
    assert forall|k: int| 0 <= k < options.len() implies is_dashed_option(*(#[trigger] options[k])) by {
        if k < last.options@.len() {
            assert(options[k] == last.options@[k]);
        } else {
            assert(options[k] == end.persistent[k - last.options@.len()]);
        }
    }
    law_words_lead_to_the_next_argument(reading, end.path_end, ends_with_space, m);
}

} // verus!
