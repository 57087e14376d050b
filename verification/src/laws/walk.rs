//! Laws of the walk along the words of a command line.
use std::sync::Arc;

use vstd::prelude::*;

use crate::ir::{spec_named, ArgSpec, OptionSpec, Spec};
use crate::lookup::options::{
    arg_slot, equal_option, is_dashed, is_separator, option_named, passed_by, persistent_in,
    resolved, separator_from, share_name, DirectivesView,
};
use crate::lookup::walk::{
    after_arg, command_name, last_part_at, spec_answer, step_of, walk_from, walk_start, walk_step,
    walked, NeedView, SpecAnswers, Step, WalkView, Walked,
};
use crate::text::texts;

verus! {

/// `child` is the subcommand that `word` names in `parent`: the first one with
/// that name.
pub open spec fn names_subcommand(parent: Spec, word: Seq<char>, child: Arc<Spec>) -> bool {
    exists|i: int|
        {
            &&& 0 <= i < parent.subcommands@.len()
            &&& #[trigger] parent.subcommands@[i] == child
            &&& texts(child.names@).contains(word)
            &&& forall|j: int|
                0 <= j < i ==> !texts((#[trigger] parent.subcommands@[j]).names@).contains(word)
        }
}

/// No subcommand of `spec` has the name.
pub open spec fn names_nothing(spec: Spec, word: Seq<char>) -> bool {
    forall|j: int|
        0 <= j < spec.subcommands@.len() ==> !texts((#[trigger] spec.subcommands@[j]).names@).contains(
            word,
        )
}

/// No hook computes the rest of the spec.
pub open spec fn is_settled(answers: SpecAnswers, spec: Spec) -> bool {
    spec.js_generate_spec is None || !answers.hooks
}

/// Nothing but names of commands and flags has been read since the command began.
pub open spec fn is_at_command(w: WalkView) -> bool {
    !w.after_dashes && !w.entered && w.option_arg is None && w.positional == 0 && w.variadic == 0
}

pub proof fn lemma_spec_named(list: Seq<Arc<Spec>>, word: Seq<char>, i: int, k: int)
    requires
        0 <= i <= k < list.len(),
        texts(list[k].names@).contains(word),
        forall|j: int| i <= j < k ==> !texts((#[trigger] list[j]).names@).contains(word),
    ensures
        spec_named(list, word, i) == Some(k),
    decreases k - i,
{
    if i < k {
        lemma_spec_named(list, word, i + 1, k);
    }
}

pub proof fn lemma_spec_unnamed(list: Seq<Arc<Spec>>, word: Seq<char>, i: int)
    requires
        0 <= i,
        forall|j: int| 0 <= j < list.len() ==> !texts((#[trigger] list[j]).names@).contains(word),
    ensures
        spec_named(list, word, i) is None,
    decreases list.len() - i,
{
    if i < list.len() {
        lemma_spec_unnamed(list, word, i + 1);
    }
}

/// Every name of an option begins with a dash.
pub open spec fn has_dashed_names(list: Seq<Arc<OptionSpec>>) -> bool {
    forall|k: int| 0 <= k < list.len() ==> is_dashed_option(*(#[trigger] list[k]))
}

/// Every name of the option begins with a dash.
pub open spec fn is_dashed_option(option: OptionSpec) -> bool {
    forall|n: int| 0 <= n < option.names@.len() ==> is_dashed(#[trigger] texts(option.names@)[n])
}

/// The place of the first option that shares a name with the given one.
spec fn place_of_equal(list: Seq<Arc<OptionSpec>>, option: Arc<OptionSpec>, i: int) -> Option<int> {
    equal_option(list, *option, i)
}

proof fn lemma_equal_option(list: Seq<Arc<OptionSpec>>, option: Arc<OptionSpec>, i: int)
    requires
        0 <= i,
    ensures
        place_of_equal(list, option, i) matches Some(k) ==> i <= k < list.len() && share_name(
            *list[k],
            *option,
        ),
    decreases list.len() - i,
{
    if i < list.len() {
        lemma_equal_option(list, option, i + 1);
    }
}

/// The options that hold in a command and its subcommands come from its parent and
/// from itself.
pub proof fn law_persistent_options_are_gathered(
    parent: Seq<Arc<OptionSpec>>,
    own: Seq<Arc<OptionSpec>>,
)
    ensures
        forall|k: int|
            0 <= k < persistent_in(parent, own).len() ==> parent.contains(
                #[trigger] persistent_in(parent, own)[k],
            ) || own.contains(persistent_in(parent, own)[k]),
        has_dashed_names(parent) && has_dashed_names(own) ==> has_dashed_names(
            persistent_in(parent, own),
        ),
    decreases own.len(),
{
    let out = persistent_in(parent, own);
    if own.len() > 0 {
        let rest = own.drop_last();
        law_persistent_options_are_gathered(parent, rest);
        let done = persistent_in(parent, rest);
        lemma_equal_option(done, own.last(), 0);
        assert forall|k: int| 0 <= k < out.len() implies parent.contains(#[trigger] out[k])
            || own.contains(out[k]) by {
            if k < done.len() && out[k] == done[k] {
                if rest.contains(done[k]) {
                    let j = choose|j: int| 0 <= j < rest.len() && rest[j] == done[k];
                    assert(own[j] == done[k]);
                }
            } else {
                assert(own[own.len() - 1] == out[k]);
            }
        }
        if has_dashed_names(parent) && has_dashed_names(own) {
            assert forall|k: int| 0 <= k < rest.len() implies is_dashed_option(
                *(#[trigger] rest[k]),
            ) by {
                assert(rest[k] == own[k]);
            }
            assert(is_dashed_option(*own[own.len() - 1]));
            assert forall|k: int| 0 <= k < out.len() implies is_dashed_option(
                *(#[trigger] out[k]),
            ) by {
                if k < done.len() && out[k] == done[k] {
                    assert(is_dashed_option(*done[k]));
                }
            }
        }
    }
}

/// An option of the parent holds on where no option of the command shares a name
/// with it.
pub proof fn law_persistent_options_are_inherited(
    parent: Seq<Arc<OptionSpec>>,
    own: Seq<Arc<OptionSpec>>,
    k: int,
)
    requires
        0 <= k < parent.len(),
        forall|j: int| 0 <= j < own.len() ==> !share_name(*parent[k], *(#[trigger] own[j])),
    ensures
        k < persistent_in(parent, own).len(),
        persistent_in(parent, own)[k] == parent[k],
    decreases own.len(),
{
    if own.len() > 0 {
        let rest = own.drop_last();
        assert forall|j: int| 0 <= j < rest.len() implies !share_name(
            *parent[k],
            *(#[trigger] rest[j]),
        ) by {
            assert(rest[j] == own[j]);
        }
        law_persistent_options_are_inherited(parent, rest, k);
        let done = persistent_in(parent, rest);
        lemma_equal_option(done, own.last(), 0);
        assert(!share_name(*parent[k], *own[own.len() - 1]));
    }
}

/// An option of the command holds in it, in place of any that shares a name.
pub proof fn law_own_options_replace_inherited_ones(
    parent: Seq<Arc<OptionSpec>>,
    own: Seq<Arc<OptionSpec>>,
    k: int,
)
    requires
        0 <= k < own.len(),
        forall|j: int| k < j < own.len() ==> !share_name(*own[k], *(#[trigger] own[j])),
    ensures
        persistent_in(parent, own).contains(own[k]),
    decreases own.len(),
{
    let rest = own.drop_last();
    let done = persistent_in(parent, rest);
    let out = persistent_in(parent, own);
    lemma_equal_option(done, own.last(), 0);
    let found = place_of_equal(done, own.last(), 0);
    if k < rest.len() {
        assert forall|j: int| k < j < rest.len() implies !share_name(
            *rest[k],
            *(#[trigger] rest[j]),
        ) by {
            assert(rest[j] == own[j]);
        }
        law_own_options_replace_inherited_ones(parent, rest, k);
        let i = choose|i: int| 0 <= i < done.len() && done[i] == rest[k];
        assert(!share_name(*own[k], *own[own.len() - 1]));
        assert(out[i] == own[k]);
    } else {
        match found {
            Some(i) => {
                assert(out[i] == own[k]);
            },
            None => {
                assert(out[done.len() as int] == own[k]);
            },
        }
    }
}

/// From a command on, the names of subcommands are walked to the last one, and the
/// walk goes on from there.
pub proof fn law_subcommand_names_are_walked(
    answers: SpecAnswers,
    w: WalkView,
    tokens: Seq<Seq<char>>,
    limit: int,
    chain: Seq<Arc<Spec>>,
) -> (end: WalkView)
    requires
        is_at_command(w),
        0 <= w.index,
        w.index + chain.len() <= limit <= tokens.len(),
        forall|i: int| 0 <= i < chain.len() ==> is_settled(answers, *(#[trigger] chain[i])),
        forall|i: int| 0 <= i < chain.len() ==> !is_dashed(#[trigger] tokens[w.index + i]),
        chain.len() > 0 ==> names_subcommand(*w.current, tokens[w.index], chain[0]),
        forall|i: int|
            0 < i < chain.len() ==> names_subcommand(
                *chain[i - 1],
                #[trigger] tokens[w.index + i],
                chain[i],
            ),
    ensures
        walk_from(answers, w, tokens, limit) == walk_from(answers, end, tokens, limit),
        end.index == w.index + chain.len(),
        is_at_command(end),
        chain.len() > 0 ==> end.current == chain.last() && end.path_end == end.index
            && end.passed.len() == 0,
        chain.len() == 0 ==> end == w,
        has_dashed_names(w.persistent) && (forall|i: int|
            0 <= i < chain.len() ==> has_dashed_names(
                (#[trigger] chain[i]).persistent_options@,
            )) ==> has_dashed_names(end.persistent),
        w.persistent.len() == 0 && (forall|i: int|
            0 <= i < chain.len() ==> (#[trigger] chain[i]).persistent_options@.len() == 0)
            ==> end.persistent.len() == 0,
        (forall|i: int| 0 <= i < chain.len() ==> (#[trigger] chain[i]).parser_directives is None)
            ==> end.directives == w.directives,
    decreases chain.len(),
{
    if chain.len() == 0 {
        w
    } else {
        let word = tokens[w.index + 0];
        assert(!is_dashed(tokens[w.index + 0]));
        let list = w.current.subcommands@;
        let k = choose|k: int|
            {
                &&& 0 <= k < list.len()
                &&& #[trigger] list[k] == chain[0]
                &&& texts(chain[0].names@).contains(word)
                &&& forall|j: int| 0 <= j < k ==> !texts((#[trigger] list[j]).names@).contains(word)
            };
        lemma_spec_named(list, word, 0, k);
        reveal_strlit("--");
        assert(list.len() == w.current.subcommands.len());
        assert(k as usize == k);
        assert(step_of(w, tokens) == Step::Child(k as usize));
        let next = walk_step(answers, w, tokens, limit)->Done_0;
        assert(is_settled(answers, *chain[0]));
        assert(next.current == chain[0]);
        assert(next.index == w.index + 1);
        let rest = chain.skip(1);
        assert forall|i: int| 0 <= i < rest.len() implies is_settled(answers, *(#[trigger] rest[i])) by {
            assert(rest[i] == chain[i + 1]);
        }
        assert forall|i: int| 0 <= i < rest.len() implies !is_dashed(#[trigger] tokens[next.index + i]) by {
            assert(tokens[next.index + i] == tokens[w.index + (i + 1)]);
        }
        assert forall|i: int| 0 < i < rest.len() implies names_subcommand(
            *rest[i - 1],
            #[trigger] tokens[next.index + i],
            rest[i],
        ) by {
            assert(rest[i] == chain[i + 1]);
            assert(rest[i - 1] == chain[i]);
            assert(tokens[next.index + i] == tokens[w.index + (i + 1)]);
        }
        if rest.len() > 0 {
            assert(tokens[w.index + 1] == tokens[next.index]);
            assert(rest[0] == chain[1]);
        }
        let end = law_subcommand_names_are_walked(answers, next, tokens, limit, rest);
        law_persistent_options_are_gathered(w.persistent, chain[0].persistent_options@);
        if forall|i: int|
            0 <= i < chain.len() ==> (#[trigger] chain[i]).persistent_options@.len() == 0 {
            assert(chain[0].persistent_options@.len() == 0);
            assert forall|i: int| 0 <= i < rest.len() implies (
            #[trigger] rest[i]).persistent_options@.len() == 0 by {
                assert(rest[i] == chain[i + 1]);
            }
        }
        if forall|i: int| 0 <= i < chain.len() ==> (#[trigger] chain[i]).parser_directives is None {
            assert(chain[0].parser_directives is None);
            assert forall|i: int| 0 <= i < rest.len() implies (
            #[trigger] rest[i]).parser_directives is None by {
                assert(rest[i] == chain[i + 1]);
            }
        }
        if forall|i: int|
            0 <= i < chain.len() ==> has_dashed_names((#[trigger] chain[i]).persistent_options@) {
            assert(has_dashed_names(chain[0].persistent_options@));
            assert forall|i: int| 0 <= i < rest.len() implies has_dashed_names(
                (#[trigger] rest[i]).persistent_options@,
            ) by {
                assert(rest[i] == chain[i + 1]);
            }
        }
        if rest.len() > 0 {
            assert(rest.last() == chain.last());
        }
        end
    }
}

/// A chain of names of subcommands is walked to its end: the spec of the last word
/// is the current one, and the path of the command ends behind it.
pub proof fn law_subcommands_are_walked_to_the_end(
    answers: SpecAnswers,
    root: Arc<Spec>,
    tokens: Seq<Seq<char>>,
    chain: Seq<Arc<Spec>>,
)
    requires
        tokens.len() == chain.len() + 1,
        is_settled(answers, *root),
        forall|i: int| 0 <= i < chain.len() ==> is_settled(answers, *(#[trigger] chain[i])),
        forall|i: int| 1 <= i < tokens.len() ==> !is_dashed(#[trigger] tokens[i]),
        chain.len() > 0 ==> names_subcommand(*root, tokens[1], chain[0]),
        forall|i: int|
            0 < i < chain.len() ==> names_subcommand(
                *chain[i - 1],
                tokens[i + 1],
                #[trigger] chain[i],
            ),
    ensures
        walked(answers, root, tokens, tokens.len() as int) is Done,
        ({
            let end = walked(answers, root, tokens, tokens.len() as int)->Done_0;
            &&& end.current == if chain.len() == 0 {
                root
            } else {
                chain.last()
            }
            &&& end.path_end == chain.len() + 1
            &&& end.index == tokens.len()
            &&& is_at_command(end)
            &&& end.passed.len() == 0
        }),
{
    let w = walk_start(answers, root)->Done_0;
    assert forall|i: int| 0 <= i < chain.len() implies !is_dashed(#[trigger] tokens[w.index + i]) by {
        assert(!is_dashed(tokens[i + 1]));
    }
    assert forall|i: int| 0 < i < chain.len() implies names_subcommand(
        *chain[i - 1],
        #[trigger] tokens[w.index + i],
        chain[i],
    ) by {
        assert(chain[i] == chain[i]);
    }
    law_subcommand_names_are_walked(answers, w, tokens, tokens.len() as int, chain);
}

/// `word` is a long name of `option`, which is the first of the list to have it,
/// and no separator stands in it.
pub open spec fn names_flag(
    list: Seq<Arc<OptionSpec>>,
    word: Seq<char>,
    option: Arc<OptionSpec>,
    directives: DirectivesView,
) -> bool {
    &&& word.len() > 2
    &&& word[0] == '-'
    &&& word[1] == '-'
    &&& forall|i: int| 0 <= i < word.len() ==> !is_separator(directives, #[trigger] word[i])
    &&& exists|k: int|
        {
            &&& 0 <= k < list.len()
            &&& #[trigger] list[k] == option
            &&& texts(option.names@).contains(word)
            &&& forall|j: int| 0 <= j < k ==> !texts((#[trigger] list[j]).names@).contains(word)
        }
}

proof fn lemma_no_separator(word: Seq<char>, directives: DirectivesView, i: int)
    requires
        0 <= i,
        forall|i: int| 0 <= i < word.len() ==> !is_separator(directives, #[trigger] word[i]),
    ensures
        separator_from(word, directives, i) is None,
    decreases word.len() - i,
{
    if i < word.len() {
        lemma_no_separator(word, directives, i + 1);
    }
}

proof fn lemma_option_named(list: Seq<Arc<OptionSpec>>, word: Seq<char>, i: int, k: int)
    requires
        0 <= i <= k < list.len(),
        texts(list[k].names@).contains(word),
        forall|j: int| i <= j < k ==> !texts((#[trigger] list[j]).names@).contains(word),
    ensures
        option_named(list, word, i) == Some(k),
    decreases k - i,
{
    if i < k {
        lemma_option_named(list, word, i + 1, k);
    }
}

pub proof fn lemma_flag(
    list: Seq<Arc<OptionSpec>>,
    word: Seq<char>,
    option: Arc<OptionSpec>,
    directives: DirectivesView,
)
    requires
        list.len() <= usize::MAX,
        names_flag(list, word, option, directives),
    ensures
        resolved(list, word, directives) is Some,
        ({
            let r = resolved(list, word, directives)->Some_0;
            &&& r.option < list.len()
            &&& list[r.option as int] == option
            &&& r.value is None
        }),
        passed_by(list, word, directives) == seq![option],
{
    lemma_no_separator(word, directives, 0);
    let k = choose|k: int|
        {
            &&& 0 <= k < list.len()
            &&& #[trigger] list[k] == option
            &&& texts(option.names@).contains(word)
            &&& forall|j: int| 0 <= j < k ==> !texts((#[trigger] list[j]).names@).contains(word)
        };
    lemma_option_named(list, word, 0, k);
    assert(k as usize == k);
    reveal_strlit("--");
}

/// Flags leave the walk at its command, and each is remembered as passed.
pub proof fn law_flags_are_passed(
    answers: SpecAnswers,
    w: WalkView,
    tokens: Seq<Seq<char>>,
    flags: Seq<Arc<OptionSpec>>,
)
    requires
        is_at_command(w),
        0 <= w.index,
        w.options().len() <= usize::MAX,
        tokens.len() == w.index + flags.len(),
        forall|i: int|
            0 <= i < flags.len() ==> (#[trigger] flags[i]).args@.len() == 0 && names_flag(
                w.options(),
                tokens[w.index + i],
                flags[i],
                w.directives,
            ),
    ensures
        walk_from(answers, w, tokens, tokens.len() as int) == Walked::Done(
            WalkView { index: tokens.len() as int, passed: w.passed + flags, ..w },
        ),
    decreases flags.len(),
{
    if flags.len() == 0 {
        assert(w.passed + flags =~= w.passed);
    } else {
        let word = tokens[w.index];
        assert(flags[0].args@.len() == 0);
        assert(names_flag(w.options(), tokens[w.index + 0], flags[0], w.directives));
        lemma_flag(w.options(), word, flags[0], w.directives);
        reveal_strlit("--");
        let next = walk_step(answers, w, tokens, tokens.len() as int)->Done_0;
        let rest = flags.skip(1);
        assert(next == (WalkView { index: w.index + 1, passed: w.passed + seq![flags[0]], ..w }));
        assert forall|i: int| 0 <= i < rest.len() implies (#[trigger] rest[i]).args@.len() == 0
            && names_flag(next.options(), tokens[next.index + i], rest[i], next.directives) by {
            assert(rest[i] == flags[i + 1]);
            assert(tokens[next.index + i] == tokens[w.index + (i + 1)]);
        }
        law_flags_are_passed(answers, next, tokens, rest);
        assert(w.passed + seq![flags[0]] + rest =~= w.passed + flags);
    }
}

/// An argument that is read where it stands: no command, module or further spec.
pub open spec fn is_plain_arg(arg: ArgSpec) -> bool {
    &&& arg.load_spec is None
    &&& arg.resolved_spec is None
    &&& arg.is_module is None
    &&& !arg.is_command
    &&& !arg.is_script
    &&& arg.name@.len() > 0
}

/// An option that must have a value takes the next word, whatever it names; the
/// walk stays at its command behind it.
pub proof fn law_options_take_their_value(
    answers: SpecAnswers,
    w: WalkView,
    tokens: Seq<Seq<char>>,
    option: Arc<OptionSpec>,
)
    requires
        is_at_command(w),
        0 <= w.index,
        w.options().len() <= usize::MAX,
        tokens.len() == w.index + 2,
        names_flag(w.options(), tokens[w.index], option, w.directives),
        option.args@.len() > 0,
        !option.args@[0].is_optional,
        !option.args@[0].is_variadic,
        is_plain_arg(*option.args@[0]),
    ensures
        walk_from(answers, w, tokens, tokens.len() as int) == Walked::Done(
            WalkView { index: tokens.len() as int, passed: w.passed + seq![option], ..w },
        ),
{
    lemma_flag(w.options(), tokens[w.index], option, w.directives);
    reveal_strlit("--");
    let next = walk_step(answers, w, tokens, tokens.len() as int)->Done_0;
    assert(next.index == tokens.len());
    assert(walk_from(answers, next, tokens, tokens.len() as int) == Walked::Done(next));
}

/// An option whose value is still to come keeps the place for it.
pub proof fn law_options_wait_for_their_value(
    answers: SpecAnswers,
    w: WalkView,
    tokens: Seq<Seq<char>>,
    option: Arc<OptionSpec>,
)
    requires
        is_at_command(w),
        0 <= w.index,
        w.options().len() <= usize::MAX,
        tokens.len() == w.index + 1,
        names_flag(w.options(), tokens[w.index], option, w.directives),
        option.args@.len() > 0,
    ensures
        walk_from(answers, w, tokens, tokens.len() as int) == Walked::Done(
            WalkView {
                index: tokens.len() as int,
                passed: w.passed + seq![option],
                option_arg: Some((option.args@[0], 0int)),
                ..w
            },
        ),
{
    lemma_flag(w.options(), tokens[w.index], option, w.directives);
    reveal_strlit("--");
    let next = walk_step(answers, w, tokens, tokens.len() as int)->Done_0;
    assert(walk_from(answers, next, tokens, tokens.len() as int) == Walked::Done(next));
}

/// The words that name nothing fill the arguments of the command one by one; once
/// the first is filled, names of subcommands are arguments too.
pub proof fn law_words_fill_the_arguments(
    answers: SpecAnswers,
    w: WalkView,
    tokens: Seq<Seq<char>>,
    limit: int,
)
    requires
        w.option_arg is None,
        0 <= w.index <= limit <= tokens.len(),
        0 <= w.positional,
        w.positional + (limit - w.index) <= w.current.args@.len(),
        forall|i: int|
            0 <= i < w.current.args@.len() ==> is_plain_arg(*(#[trigger] w.current.args@[i]))
                && !w.current.args@[i].is_variadic,
        forall|i: int| w.index <= i < limit ==> !is_dashed(#[trigger] tokens[i]),
        w.entered || w.after_dashes || w.index == limit || names_nothing(
            *w.current,
            tokens[w.index],
        ),
    ensures
        walk_from(answers, w, tokens, limit) == Walked::Done(
            WalkView {
                index: limit,
                positional: w.positional + (limit - w.index),
                entered: w.entered || w.index < limit,
                ..w
            },
        ),
    decreases limit - w.index,
{
    if w.index < limit {
        let word = tokens[w.index];
        reveal_strlit("--");
        assert(!is_dashed(word));
        if !w.entered && !w.after_dashes {
            lemma_spec_unnamed(w.current.subcommands@, word, 0);
        }
        let args = w.current.args@;
        assert(args.len() == w.current.args.len());
        assert(is_plain_arg(*args[w.positional]));
        assert(arg_slot(args, w.positional) == Some(w.positional));
        assert(w.positional as usize == w.positional);
        assert(step_of(w, tokens) == Step::Slot(w.positional as usize));
        let next = walk_step(answers, w, tokens, limit)->Done_0;
        assert(next == (WalkView {
            index: w.index + 1,
            positional: w.positional + 1,
            entered: true,
            ..w
        }));
        law_words_fill_the_arguments(answers, next, tokens, limit);
    }
}

/// Two dashes end the options: what follows fills arguments, even if it begins with
/// a dash or names a subcommand.
pub proof fn law_dashes_end_the_options(answers: SpecAnswers, w: WalkView, tokens: Seq<Seq<char>>)
    requires
        is_at_command(w),
        0 <= w.index < tokens.len(),
        tokens[w.index] == "--"@,
        tokens.len() - w.index - 1 <= w.current.args@.len(),
        forall|i: int|
            0 <= i < w.current.args@.len() ==> is_plain_arg(*(#[trigger] w.current.args@[i]))
                && !w.current.args@[i].is_variadic,
    ensures
        walk_from(answers, w, tokens, tokens.len() as int) is Done,
        ({
            let end = walk_from(answers, w, tokens, tokens.len() as int)->Done_0;
            &&& end.current == w.current
            &&& end.path_end == w.path_end
            &&& end.passed == w.passed
            &&& end.after_dashes
            &&& end.positional == tokens.len() - w.index - 1
        }),
{
    reveal_strlit("--");
    let next = walk_step(answers, w, tokens, tokens.len() as int)->Done_0;
    assert(next == (WalkView { after_dashes: true, index: w.index + 1, ..w }));
    lemma_after_dashes(answers, next, tokens);
}

proof fn lemma_after_dashes(answers: SpecAnswers, w: WalkView, tokens: Seq<Seq<char>>)
    requires
        w.after_dashes,
        w.option_arg is None,
        0 <= w.index <= tokens.len(),
        0 <= w.positional,
        w.positional + (tokens.len() - w.index) <= w.current.args@.len(),
        forall|i: int|
            0 <= i < w.current.args@.len() ==> is_plain_arg(*(#[trigger] w.current.args@[i]))
                && !w.current.args@[i].is_variadic,
    ensures
        walk_from(answers, w, tokens, tokens.len() as int) is Done,
        ({
            let end = walk_from(answers, w, tokens, tokens.len() as int)->Done_0;
            &&& end.current == w.current
            &&& end.path_end == w.path_end
            &&& end.passed == w.passed
            &&& end.after_dashes
            &&& end.positional == w.positional + (tokens.len() - w.index)
        }),
    decreases tokens.len() - w.index,
{
    if w.index < tokens.len() {
        let args = w.current.args@;
        assert(args.len() == w.current.args.len());
        assert(is_plain_arg(*args[w.positional]));
        assert(arg_slot(args, w.positional) == Some(w.positional));
        assert(step_of(w, tokens) == Step::Slot(w.positional as usize));
        let next = walk_step(answers, w, tokens, tokens.len() as int)->Done_0;
        lemma_after_dashes(answers, next, tokens);
    }
}

/// A word in the place of a command, such as the one behind `sudo`, is walked into:
/// the spec that the answers give for it becomes the current one, and the path of
/// the command ends behind it.
pub proof fn law_commands_in_arguments_are_entered(
    answers: SpecAnswers,
    w: WalkView,
    tokens: Seq<Seq<char>>,
    next: Arc<Spec>,
    k: int,
)
    requires
        is_at_command(w),
        0 <= w.index,
        tokens.len() == w.index + 1,
        w.current.args@.len() > 0,
        w.current.args@[0].is_command,
        !w.current.args@[0].is_script,
        w.current.args@[0].is_module is None,
        w.current.args@[0].load_spec is None,
        w.current.args@[0].resolved_spec is None,
        answers.lookup,
        names_nothing(*w.current, tokens[w.index]),
        tokens[w.index].len() > 0,
        tokens[w.index] != "?"@,
        forall|i: int|
            0 <= i < tokens[w.index].len() ==> {
                let c = #[trigger] tokens[w.index][i];
                c != '/' && c != '\\' && c != '-'
            },
        0 <= k < answers.specs@.len(),
        answers.specs@[k].0@ == tokens[w.index],
        answers.specs@[k].1 == Some(next),
        forall|j: int| 0 <= j < k ==> (#[trigger] answers.specs@[j]).0@ != tokens[w.index],
        is_settled(answers, *next),
    ensures
        walk_from(answers, w, tokens, tokens.len() as int) is Done,
        ({
            let end = walk_from(answers, w, tokens, tokens.len() as int)->Done_0;
            &&& end.current == next
            &&& end.path_end == tokens.len()
            &&& is_at_command(end)
            &&& end.passed.len() == 0
        }),
{
    let word = tokens[w.index];
    reveal_strlit("--");
    reveal_strlit("/");
    reveal_strlit("./");
    reveal_strlit("~/");
    assert(word[0] != '-');
    lemma_spec_unnamed(w.current.subcommands@, word, 0);
    lemma_spec_answer(answers.specs@, word, 0, k);
    lemma_no_part(word, word.len() as int);
    assert(word.subrange(0, 1)[0] == word[0]);
    let end = walk_step(answers, w, tokens, tokens.len() as int)->Done_0;
    let arg = w.current.args@[0];
    assert(step_of(w, tokens) == Step::Slot(0));
    assert(crate::lookup::walk::command_name(word, false) == word) by {
        assert(word.skip(0) =~= word);
    }
    assert(crate::lookup::walk::after_arg(answers, *arg, word) == Walked::Done(Some(next)));
    assert(walk_from(answers, end, tokens, tokens.len() as int) == Walked::Done(end));
}

proof fn lemma_spec_answer(
    specs: Seq<(String, Option<Arc<Spec>>)>,
    name: Seq<char>,
    i: int,
    k: int,
)
    requires
        0 <= i <= k < specs.len(),
        specs[k].0@ == name,
        forall|j: int| i <= j < k ==> (#[trigger] specs[j]).0@ != name,
    ensures
        spec_answer(specs, name, i) == Some(specs[k].1),
    decreases k - i,
{
    if i < k {
        lemma_spec_answer(specs, name, i + 1, k);
    }
}

proof fn lemma_no_part(s: Seq<char>, i: int)
    requires
        0 <= i <= s.len(),
        forall|k: int| 0 <= k < s.len() ==> #[trigger] s[k] != '/' && s[k] != '\\',
    ensures
        crate::lookup::walk::last_part_at(s, i) == 0,
    decreases i,
{
    if i > 0 {
        assert(s[i - 1] != '/' && s[i - 1] != '\\');
        lemma_no_part(s, i - 1);
    }
}

proof fn lemma_last_part(d: Seq<char>, sep: char, name: Seq<char>, i: int)
    requires
        0 <= i <= name.len(),
        sep == '/' || sep == '\\',
        forall|k: int| 0 <= k < name.len() ==> #[trigger] name[k] != '/' && name[k] != '\\',
    ensures
        last_part_at(d + seq![sep] + name, d.len() + 1 + i) == d.len() + 1,
    decreases i,
{
    let s = d + seq![sep] + name;
    if i > 0 {
        assert(s[d.len() + 1 + i - 1] == name[i - 1]);
        lemma_last_part(d, sep, name, i - 1);
    } else {
        assert(s[d.len() as int] == sep);
    }
}

/// A path in the place of a script, or one that is written as a path in the place of
/// a command, stands for the command that its last part names; a plain word for
/// itself.
pub proof fn law_paths_name_commands(d: Seq<char>, name: Seq<char>, word: Seq<char>)
    requires
        name.len() > 0,
        forall|k: int| 0 <= k < name.len() ==> #[trigger] name[k] != '/' && name[k] != '\\',
        word.len() > 0,
        word[0] != '/',
        word[0] != '.',
        word[0] != '~',
    ensures
        command_name(d + "/"@ + name, true) == name,
        d.len() == 0 || d[0] == '/' || d == "."@ || d == "~"@ ==> command_name(
            d + "/"@ + name,
            false,
        ) == name,
        command_name(word, false) == word,
{
    reveal_strlit("/");
    reveal_strlit("./");
    reveal_strlit("~/");
    reveal_strlit(".");
    reveal_strlit("~");
    let s = d + "/"@ + name;
    assert(s =~= d + seq!['/'] + name);
    lemma_last_part(d, '/', name, name.len() as int);
    assert(s.skip(d.len() as int + 1) =~= name);
    if d.len() == 0 {
        assert(s[0] == '/');
        assert(s.subrange(0, 1) =~= "/"@);
    } else if d[0] == '/' {
        assert(s[0] == '/');
        assert(s.subrange(0, 1) =~= "/"@);
    } else if d == "."@ {
        assert(s.subrange(0, 2) =~= "./"@);
    } else if d == "~"@ {
        assert(s.subrange(0, 2) =~= "~/"@);
    }
    if word.len() >= 1 {
        assert(word.subrange(0, 1)[0] == word[0]);
    }
    if word.len() >= 2 {
        assert(word.subrange(0, 2)[0] == word[0]);
    }
}

/// An argument that names modules loads the spec of its prefix and the word.
pub proof fn law_modules_are_looked_up(
    answers: SpecAnswers,
    arg: ArgSpec,
    prefix: Seq<char>,
    word: Seq<char>,
    k: int,
)
    requires
        arg.load_spec is None,
        arg.resolved_spec is None,
        arg.is_module matches Some(text) && text@ == prefix,
        prefix.len() > 0,
        prefix + word != "?"@,
        answers.lookup,
    ensures
        0 <= k < answers.specs@.len() && answers.specs@[k].0@ == prefix + word && (forall|j: int|
            0 <= j < k ==> (#[trigger] answers.specs@[j]).0@ != prefix + word) ==> after_arg(
            answers,
            arg,
            word,
        ) == Walked::Done(answers.specs@[k].1),
        (forall|j: int|
            0 <= j < answers.specs@.len() ==> (#[trigger] answers.specs@[j]).0@ != prefix + word)
            ==> after_arg(answers, arg, word) == Walked::<Option<Arc<Spec>>>::Needs(
            NeedView::Spec(prefix + word),
        ),
{
    let name = prefix + word;
    if 0 <= k < answers.specs@.len() && answers.specs@[k].0@ == name && (forall|j: int|
        0 <= j < k ==> (#[trigger] answers.specs@[j]).0@ != name) {
        lemma_spec_answer(answers.specs@, name, 0, k);
    }
    if forall|j: int|
        0 <= j < answers.specs@.len() ==> (#[trigger] answers.specs@[j]).0@ != name {
        lemma_no_answer(answers.specs@, name, 0);
    }
}

proof fn lemma_no_answer(specs: Seq<(String, Option<Arc<Spec>>)>, name: Seq<char>, i: int)
    requires
        0 <= i,
        forall|j: int| 0 <= j < specs.len() ==> (#[trigger] specs[j]).0@ != name,
    ensures
        spec_answer(specs, name, i) is None,
    decreases specs.len() - i,
{
    if i < specs.len() {
        assert(specs[i].0@ != name);
        lemma_no_answer(specs, name, i + 1);
    }
}

/// A subcommand obeys its own directives, and its parent's where it has none; its
/// persistent options join those of its parent.
pub proof fn law_subcommands_inherit(
    answers: SpecAnswers,
    w: WalkView,
    tokens: Seq<Seq<char>>,
    child: Arc<Spec>,
)
    requires
        is_at_command(w),
        0 <= w.index,
        tokens.len() == w.index + 1,
        is_settled(answers, *child),
        !is_dashed(tokens[w.index]),
        names_subcommand(*w.current, tokens[w.index], child),
    ensures
        walk_from(answers, w, tokens, tokens.len() as int) is Done,
        ({
            let end = walk_from(answers, w, tokens, tokens.len() as int)->Done_0;
            &&& child.parser_directives is None ==> end.directives == w.directives
            &&& child.parser_directives matches Some(own) ==> end.directives == own@
            &&& child.persistent_options@.len() == 0 ==> end.persistent == w.persistent
            &&& forall|k: int|
                0 <= k < end.persistent.len() ==> w.persistent.contains(
                    #[trigger] end.persistent[k],
                ) || child.persistent_options@.contains(end.persistent[k])
        }),
{
    let list = w.current.subcommands@;
    let word = tokens[w.index];
    let k = choose|k: int|
        {
            &&& 0 <= k < list.len()
            &&& #[trigger] list[k] == child
            &&& texts(child.names@).contains(word)
            &&& forall|j: int| 0 <= j < k ==> !texts((#[trigger] list[j]).names@).contains(word)
        };
    lemma_spec_named(list, word, 0, k);
    reveal_strlit("--");
    assert(list.len() == w.current.subcommands.len());
    assert(k as usize == k);
    assert(step_of(w, tokens) == Step::Child(k as usize));
    let end = walk_step(answers, w, tokens, tokens.len() as int)->Done_0;
    assert(walk_from(answers, end, tokens, tokens.len() as int) == Walked::Done(end));
    law_persistent_options_are_gathered(w.persistent, child.persistent_options@);
}

/// An option with its value attached leaves the walk at its command; the word behind
/// it is read on its own.
pub proof fn law_attached_values_leave_the_command(
    answers: SpecAnswers,
    w: WalkView,
    tokens: Seq<Seq<char>>,
    name: Seq<char>,
    sep: char,
    value: Seq<char>,
    option: Arc<OptionSpec>,
    k: int,
)
    requires
        is_at_command(w),
        0 <= w.index,
        tokens.len() == w.index + 1,
        tokens[w.index] == name + seq![sep] + value,
        w.options().len() <= usize::MAX,
        name.len() + 1 <= usize::MAX,
        name.len() > 2,
        name[0] == '-',
        name[1] == '-',
        forall|i: int| 0 <= i < name.len() ==> !is_separator(w.directives, #[trigger] name[i]),
        is_separator(w.directives, sep),
        super::options::is_first_named(w.options(), name, option, k),
        option.args@.len() > 0,
        !option.args@[0].is_variadic,
        is_plain_arg(*option.args@[0]),
    ensures
        walk_from(answers, w, tokens, tokens.len() as int) == Walked::Done(
            WalkView { index: tokens.len() as int, passed: w.passed + seq![option], ..w },
        ),
{
    super::options::law_attached_values_are_read(
        w.options(),
        name,
        sep,
        value,
        w.directives,
        option,
        k,
    );
    reveal_strlit("--");
    let word = tokens[w.index];
    assert(word.len() > 2);
    assert(word != "--"@);
    assert(word[0] == '-');
    let next = walk_step(answers, w, tokens, tokens.len() as int)->Done_0;
    assert(next.index == tokens.len());
    assert(walk_from(answers, next, tokens, tokens.len() as int) == Walked::Done(next));
}

/// An option whose value may be left out takes a word that names no subcommand for
/// it.
pub proof fn law_optional_values_are_taken(
    answers: SpecAnswers,
    w: WalkView,
    tokens: Seq<Seq<char>>,
    option: Arc<OptionSpec>,
)
    requires
        is_at_command(w),
        0 <= w.index,
        w.options().len() <= usize::MAX,
        tokens.len() == w.index + 2,
        names_flag(w.options(), tokens[w.index], option, w.directives),
        option.args@.len() > 0,
        option.args@[0].is_optional,
        !option.args@[0].is_variadic,
        is_plain_arg(*option.args@[0]),
        !is_dashed(tokens[w.index + 1]),
        names_nothing(*w.current, tokens[w.index + 1]),
    ensures
        walk_from(answers, w, tokens, tokens.len() as int) == Walked::Done(
            WalkView { index: tokens.len() as int, passed: w.passed + seq![option], ..w },
        ),
{
    lemma_flag(w.options(), tokens[w.index], option, w.directives);
    reveal_strlit("--");
    lemma_spec_unnamed(w.current.subcommands@, tokens[w.index + 1], 0);
    let next = walk_step(answers, w, tokens, tokens.len() as int)->Done_0;
    assert(next.index == tokens.len());
    assert(walk_from(answers, next, tokens, tokens.len() as int) == Walked::Done(next));
}

/// An option that takes many values takes the words behind it until the next option,
/// even those that name subcommands.
pub proof fn law_variadic_options_take_every_word(
    answers: SpecAnswers,
    w: WalkView,
    tokens: Seq<Seq<char>>,
    arg: Arc<ArgSpec>,
    count: int,
)
    requires
        w.option_arg == Some((arg, count)),
        arg.is_variadic,
        0 <= w.index <= tokens.len(),
        forall|i: int| w.index <= i < tokens.len() ==> !is_dashed(#[trigger] tokens[i]),
    ensures
        walk_from(answers, w, tokens, tokens.len() as int) == Walked::Done(
            WalkView {
                index: tokens.len() as int,
                option_arg: Some((arg, count + (tokens.len() - w.index))),
                ..w
            },
        ),
    decreases tokens.len() - w.index,
{
    if w.index < tokens.len() {
        assert(!is_dashed(tokens[w.index]));
        reveal_strlit("--");
        assert(step_of(w, tokens) is Fill);
        let next = walk_step(answers, w, tokens, tokens.len() as int)->Done_0;
        law_variadic_options_take_every_word(answers, next, tokens, arg, count + 1);
    }
}

/// Where options must come before arguments, a word with a dash behind an argument
/// is an argument too.
pub proof fn law_options_may_have_to_come_first(
    answers: SpecAnswers,
    w: WalkView,
    tokens: Seq<Seq<char>>,
)
    requires
        w.directives.options_first == Some(true),
        w.entered,
        w.option_arg is None,
        0 <= w.index,
        tokens.len() == w.index + 1,
        is_dashed(tokens[w.index]),
        0 <= w.positional < w.current.args@.len(),
        is_plain_arg(*w.current.args@[w.positional]),
        !w.current.args@[w.positional].is_variadic,
    ensures
        walk_from(answers, w, tokens, tokens.len() as int) == Walked::Done(
            WalkView { index: tokens.len() as int, positional: w.positional + 1, ..w },
        ),
{
    assert(w.current.args@.len() == w.current.args.len());
    assert(arg_slot(w.current.args@, w.positional) == Some(w.positional));
    assert(step_of(w, tokens) == Step::Slot(w.positional as usize));
    let next = walk_step(answers, w, tokens, tokens.len() as int)->Done_0;
    assert(walk_from(answers, next, tokens, tokens.len() as int) == Walked::Done(next));
}

/// A last argument that takes many words takes every further one, and keeps its
/// place.
pub proof fn law_variadic_arguments_keep_their_place(
    answers: SpecAnswers,
    w: WalkView,
    tokens: Seq<Seq<char>>,
)
    requires
        w.option_arg is None,
        w.entered,
        0 <= w.index <= tokens.len(),
        0 <= w.variadic,
        w.current.args@.len() > 0,
        w.positional == w.current.args@.len() - 1,
        w.current.args@.last().is_variadic,
        is_plain_arg(*w.current.args@.last()),
        forall|i: int| w.index <= i < tokens.len() ==> !is_dashed(#[trigger] tokens[i]),
    ensures
        walk_from(answers, w, tokens, tokens.len() as int) == Walked::Done(
            WalkView {
                index: tokens.len() as int,
                variadic: w.variadic + (tokens.len() - w.index),
                ..w
            },
        ),
    decreases tokens.len() - w.index,
{
    if w.index < tokens.len() {
        assert(!is_dashed(tokens[w.index]));
        reveal_strlit("--");
        assert(w.current.args@.len() == w.current.args.len());
        assert(arg_slot(w.current.args@, w.positional) == Some(w.positional));
        assert(step_of(w, tokens) == Step::Slot(w.positional as usize));
        let next = walk_step(answers, w, tokens, tokens.len() as int)->Done_0;
        law_variadic_arguments_keep_their_place(answers, next, tokens);
    }
}

} // verus!
