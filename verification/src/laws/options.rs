//! Laws of option tokens: attached values and chains of short options.
use std::sync::Arc;

use vstd::prelude::*;

use super::active::{is_open_for_options, takes_single_words};
use super::walk::is_plain_arg;
use crate::ir::OptionSpec;
use crate::lookup::active::{ActiveView, Reading, ScanStep, Scanned};
use crate::lookup::options::{
    chain_from, is_dashed, is_separator, letters_from, option_named, passed_by, resolved,
    separator_from, short_option, DirectivesView,
};
use crate::text::{index_from, texts};

verus! {

/// The option is the first of the list with the name.
pub open spec fn is_first_named(
    list: Seq<Arc<OptionSpec>>,
    name: Seq<char>,
    option: Arc<OptionSpec>,
    k: int,
) -> bool {
    &&& 0 <= k < list.len()
    &&& list[k] == option
    &&& texts(option.names@).contains(name)
    &&& forall|j: int| 0 <= j < k ==> !texts((#[trigger] list[j]).names@).contains(name)
}

proof fn lemma_first_named(
    list: Seq<Arc<OptionSpec>>,
    name: Seq<char>,
    option: Arc<OptionSpec>,
    k: int,
    i: int,
)
    requires
        is_first_named(list, name, option, k),
        0 <= i <= k,
    ensures
        option_named(list, name, i) == Some(k),
    decreases k - i,
{
    if i < k {
        assert(!texts(list[i].names@).contains(name));
        lemma_first_named(list, name, option, k, i + 1);
    }
}

proof fn lemma_separator_at(w: Seq<char>, directives: DirectivesView, i: int, n: int)
    requires
        0 <= i <= n < w.len(),
        forall|k: int| 0 <= k < n ==> !is_separator(directives, #[trigger] w[k]),
        is_separator(directives, w[n]),
    ensures
        separator_from(w, directives, i) == Some(n),
    decreases n - i,
{
    if i < n {
        assert(!is_separator(directives, w[i]));
        lemma_separator_at(w, directives, i + 1, n);
    }
}

/// Options take their value behind a separator, which is `=` unless the command
/// names others.
pub proof fn law_separators(directives: DirectivesView, c: char)
    ensures
        directives.separators is None ==> (is_separator(directives, c) <==> c == '='),
        directives.separators matches Some(list) ==> (is_separator(directives, c) <==> list.contains(
            seq![c],
        )),
{
}

/// A long option with a value attached is that option with that value.
pub proof fn law_attached_values_are_read(
    list: Seq<Arc<OptionSpec>>,
    name: Seq<char>,
    sep: char,
    value: Seq<char>,
    directives: DirectivesView,
    option: Arc<OptionSpec>,
    k: int,
)
    requires
        list.len() <= usize::MAX,
        name.len() + 1 <= usize::MAX,
        name.len() > 2,
        name[0] == '-',
        name[1] == '-',
        forall|i: int| 0 <= i < name.len() ==> !is_separator(directives, #[trigger] name[i]),
        is_separator(directives, sep),
        is_first_named(list, name, option, k),
        option.args@.len() > 0,
    ensures
        resolved(list, name + seq![sep] + value, directives) is Some,
        ({
            let w = name + seq![sep] + value;
            let r = resolved(list, w, directives)->Some_0;
            &&& r.option == k
            &&& r.value is Some
            &&& w.skip(r.value->Some_0 as int) == value
            &&& r.separator == Some(sep)
            &&& r.chain is None
            &&& passed_by(list, w, directives) == seq![option]
        }),
{
    let w = name + seq![sep] + value;
    let n = name.len() as int;
    assert forall|i: int| 0 <= i < n implies !is_separator(directives, #[trigger] w[i]) by {
        assert(w[i] == name[i]);
    }
    assert(w[n] == sep);
    assert(w[0] == '-');
    assert(w[1] == '-');
    lemma_separator_at(w, directives, 0, n);
    assert(w.take(n) =~= name);
    lemma_first_named(list, name, option, k, 0);
    assert(k as usize == k);
    assert((n + 1) as usize == n + 1);
    assert(w.skip(n + 1) =~= value);
    reveal_strlit("--");
}

/// While the value attached to an option is typed, the option's argument is under
/// the caret, and what is typed of it stands behind the separator.
pub proof fn law_attached_values_are_completed(
    reading: Reading,
    path_end: int,
    name: Seq<char>,
    sep: char,
    value: Seq<char>,
    option: Arc<OptionSpec>,
    k: int,
)
    requires
        is_open_for_options(reading, path_end),
        takes_single_words(reading.spec.args@),
        0 <= path_end,
        reading.tokens.len() == path_end + 1,
        reading.tokens.last() == name + seq![sep] + value,
        reading.options.len() <= usize::MAX,
        name.len() + 1 <= usize::MAX,
        name.len() > 2,
        name[0] == '-',
        name[1] == '-',
        forall|i: int|
            0 <= i < name.len() ==> !is_separator(reading.directives, #[trigger] name[i]),
        is_separator(reading.directives, sep),
        is_first_named(reading.options, name, option, k),
        option.args@.len() > 0,
    ensures
        reading.active(path_end, false) is Some,
        ({
            let active = reading.active(path_end, false)->Some_0;
            &&& active.arg == option.args@[0]
            &&& active.query == value
            &&& active.exclusive
            &&& reading.raw == name + seq![sep] + value ==> active.search_term == value
        }),
{
    let w = reading.tokens.last();
    law_attached_values_are_read(
        reading.options,
        name,
        sep,
        value,
        reading.directives,
        option,
        k,
    );
    let start = Scanned {
        positional: 0,
        index: path_end,
        after_dashes: false,
        option_arg: None,
        entered: false,
        variadic: 0,
    };
    let args = reading.spec.args@;
    if args.len() > 0 {
        assert(is_plain_arg(*args[0]));
    }
    assert(reading.scan(start, path_end) == ScanStep::Go(start));
    if reading.raw == w {
        assert forall|i: int| 0 <= i < name.len() implies w[i] != sep by {
            assert(w[i] == name[i]);
            assert(!is_separator(reading.directives, name[i]));
        }
        lemma_index(w, sep, 0, name.len() as int);
        assert(w.skip(name.len() as int + 1) =~= value);
    }
}

proof fn lemma_index(w: Seq<char>, c: char, i: int, n: int)
    requires
        0 <= i <= n < w.len(),
        w[n] == c,
        forall|k: int| 0 <= k < n ==> #[trigger] w[k] != c,
    ensures
        index_from(w, c, i) == n,
    decreases n - i,
{
    if i < n {
        assert(w[i] != c);
        lemma_index(w, c, i + 1, n);
    }
}

/// The option is the first of the list with the letter as a short name.
pub open spec fn is_first_lettered(
    list: Seq<Arc<OptionSpec>>,
    letter: char,
    option: Arc<OptionSpec>,
) -> bool {
    &&& letter != '-'
    &&& exists|k: int|
        {
            &&& 0 <= k < list.len()
            &&& #[trigger] list[k] == option
            &&& texts(option.names@).contains(seq!['-', letter])
            &&& forall|j: int|
                0 <= j < k ==> !texts((#[trigger] list[j]).names@).contains(seq!['-', letter])
        }
}

proof fn lemma_short(list: Seq<Arc<OptionSpec>>, letter: char, option: Arc<OptionSpec>)
    requires
        is_first_lettered(list, letter, option),
    ensures
        short_option(list, letter, 0) is Some,
        0 <= short_option(list, letter, 0)->Some_0 < list.len(),
        list[short_option(list, letter, 0)->Some_0] == option,
{
    let k = choose|k: int|
        {
            &&& 0 <= k < list.len()
            &&& #[trigger] list[k] == option
            &&& texts(option.names@).contains(seq!['-', letter])
            &&& forall|j: int|
                0 <= j < k ==> !texts((#[trigger] list[j]).names@).contains(seq!['-', letter])
        };
    lemma_short_at(list, letter, 0, k);
}

proof fn lemma_short_at(list: Seq<Arc<OptionSpec>>, letter: char, i: int, k: int)
    requires
        0 <= i <= k < list.len(),
        letter != '-',
        texts(list[k].names@).contains(seq!['-', letter]),
        forall|j: int| 0 <= j < k ==> !texts((#[trigger] list[j]).names@).contains(seq!['-', letter]),
    ensures
        short_option(list, letter, i) == Some(k),
    decreases k - i,
{
    if i < k {
        assert(!texts(list[i].names@).contains(seq!['-', letter]));
        lemma_short_at(list, letter, i + 1, k);
    }
}

/// `w` is a dash and letters, each the short name of the option in its place.
pub open spec fn spells_options(
    list: Seq<Arc<OptionSpec>>,
    w: Seq<char>,
    options: Seq<Arc<OptionSpec>>,
    directives: DirectivesView,
) -> bool {
    &&& w.len() == options.len() + 1
    &&& w[0] == '-'
    &&& forall|i: int|
        0 <= i < options.len() ==> is_first_lettered(list, w[i + 1], #[trigger] options[i])
    &&& forall|i: int| 0 <= i < w.len() ==> !is_separator(directives, #[trigger] w[i])
}

proof fn lemma_chain(
    list: Seq<Arc<OptionSpec>>,
    w: Seq<char>,
    options: Seq<Arc<OptionSpec>>,
    directives: DirectivesView,
    i: int,
)
    requires
        list.len() <= usize::MAX,
        w.len() <= usize::MAX,
        spells_options(list, w, options, directives),
        1 <= i < w.len(),
        forall|k: int| 0 <= k < options.len() - 1 ==> (#[trigger] options[k]).args@.len() == 0,
    ensures
        chain_from(list, w, i) is Some,
        ({
            let chain = chain_from(list, w, i)->Some_0;
            &&& chain.option < list.len()
            &&& list[chain.option as int] == options.last()
            &&& chain.prefix == w.len()
            &&& chain.value is None
        }),
        letters_from(list, w, directives, i) == options.skip(i - 1),
    decreases w.len() - i,
{
    assert(is_first_lettered(list, w[(i - 1) + 1], options[i - 1]));
    lemma_short(list, w[i], options[i - 1]);
    lemma_no_separator_from(w, directives, i + 1);
    if i + 1 < w.len() {
        assert(is_first_lettered(list, w[i + 1], options[i]));
        lemma_short(list, w[i + 1], options[i]);
        assert(options[i - 1].args@.len() == 0);
        lemma_chain(list, w, options, directives, i + 1);
        assert(options.skip(i - 1) =~= seq![options[i - 1]] + options.skip(i));
    } else {
        assert(options.skip(i - 1) =~= seq![options[i - 1]]);
        assert(letters_from(list, w, directives, i + 1) =~= Seq::<Arc<OptionSpec>>::empty());
        assert(letters_from(list, w, directives, i) =~= seq![options[i - 1]]);
    }
}

proof fn lemma_no_separator_from(w: Seq<char>, directives: DirectivesView, i: int)
    requires
        0 <= i,
        forall|k: int| 0 <= k < w.len() ==> !is_separator(directives, #[trigger] w[k]),
    ensures
        separator_from(w, directives, i) is None,
    decreases w.len() - i,
{
    if i < w.len() {
        assert(!is_separator(directives, w[i]));
        lemma_no_separator_from(w, directives, i + 1);
    }
}

/// Short options may be written behind one dash: each counts as passed, and the
/// last one is the option that a value may follow.
pub proof fn law_short_options_may_be_chained(
    list: Seq<Arc<OptionSpec>>,
    w: Seq<char>,
    options: Seq<Arc<OptionSpec>>,
    directives: DirectivesView,
)
    requires
        list.len() <= usize::MAX,
        w.len() <= usize::MAX,
        options.len() >= 2,
        directives.long_flags != Some(true),
        spells_options(list, w, options, directives),
        forall|k: int| 0 <= k < options.len() - 1 ==> (#[trigger] options[k]).args@.len() == 0,
    ensures
        resolved(list, w, directives) is Some,
        ({
            let r = resolved(list, w, directives)->Some_0;
            &&& r.option < list.len()
            &&& list[r.option as int] == options.last()
            &&& r.value is None
        }),
        passed_by(list, w, directives) == options,
{
    lemma_chain(list, w, options, directives, 1);
    assert(is_first_lettered(list, w[1], options[0]));
    reveal_strlit("--");
    assert(options.skip(0) =~= options);
}

/// A short option that must have a value takes the rest of its word for it.
pub proof fn law_short_options_take_the_rest_of_their_word(
    list: Seq<Arc<OptionSpec>>,
    letter: char,
    value: Seq<char>,
    directives: DirectivesView,
    option: Arc<OptionSpec>,
)
    requires
        list.len() <= usize::MAX,
        directives.long_flags != Some(true),
        is_first_lettered(list, letter, option),
        option.args@.len() > 0,
        !option.args@[0].is_optional,
        value.len() > 0,
        value[0] != '=',
    ensures
        resolved(list, seq!['-', letter] + value, directives) is Some,
        ({
            let w = seq!['-', letter] + value;
            let r = resolved(list, w, directives)->Some_0;
            &&& r.option < list.len()
            &&& list[r.option as int] == option
            &&& r.value is Some
            &&& w.skip(r.value->Some_0 as int) == value
        }),
{
    let w = seq!['-', letter] + value;
    assert(w[1] == letter);
    assert(w[2] == value[0]);
    lemma_short(list, letter, option);
    assert(chain_from(list, w, 1) is Some);
    assert(w.skip(2) =~= value);
}

/// A word that begins with a dash, and that no option with an attached value
/// explains, is not an argument: options are completed there.
pub proof fn law_dashed_words_are_no_arguments(reading: Reading, path_end: int)
    requires
        is_open_for_options(reading, path_end),
        takes_single_words(reading.spec.args@),
        0 <= path_end,
        reading.tokens.len() == path_end + 1,
        is_dashed(reading.tokens.last()),
        resolved(reading.options, reading.tokens.last(), reading.directives) is None,
    ensures
        reading.active(path_end, false) is None,
{
    let start = Scanned {
        positional: 0,
        index: path_end,
        after_dashes: false,
        option_arg: None,
        entered: false,
        variadic: 0,
    };
    let args = reading.spec.args@;
    if args.len() > 0 {
        assert(is_plain_arg(*args[0]));
    }
    assert(reading.scan(start, path_end) == ScanStep::Go(start));
}

/// Behind two dashes a word is an argument even if it begins with a dash.
pub proof fn law_words_behind_dashes_are_arguments(reading: Reading, path_end: int)
    requires
        is_open_for_options(reading, path_end),
        takes_single_words(reading.spec.args@),
        0 <= path_end,
        reading.tokens.len() == path_end + 2,
        reading.tokens[path_end] == "--"@,
    ensures
        reading.active(path_end, false) == if reading.spec.args@.len() > 0 {
            Some(
                ActiveView {
                    arg: reading.spec.args@[0],
                    query: reading.query,
                    search_term: reading.raw,
                    exclusive: false,
                },
            )
        } else {
            None
        },
{
    let start = Scanned {
        positional: 0,
        index: path_end,
        after_dashes: false,
        option_arg: None,
        entered: false,
        variadic: 0,
    };
    let args = reading.spec.args@;
    if args.len() > 0 {
        assert(is_plain_arg(*args[0]));
    }
    let next = Scanned { after_dashes: true, index: path_end + 1, ..start };
    assert(reading.step(start, path_end + 1) == ScanStep::Go(next));
    assert(reading.scan(next, path_end + 1) == ScanStep::Go(next));
}

} // verus!
