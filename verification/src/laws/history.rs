//! Laws of past commands: the slots that their words fill, and what is offered for
//! a slot.
use std::sync::Arc;

use vstd::prelude::*;

use super::active::takes_single_words;
use super::shape::lemma_push_contains;
use super::walk::{
    is_at_command, is_plain_arg, is_settled, lemma_flag, lemma_spec_named, lemma_spec_unnamed,
    names_flag, names_nothing, names_subcommand,
};
use crate::history::{
    alias_expanded, alias_in, alias_named, aliases_in, command_end, commands_from, filed_under,
    index_of_commands, primary_of, separates, slot_values, trace_from, trace_of, trace_start,
    traced, with_recent, SlotView, TraceView,
};
use crate::ir::{OptionSpec, Spec};
use crate::lookup::options::{arg_slot, is_dashed};
use crate::lookup::shell::{is_plain_word, law_plain_words_read_back, spaced, words};
use crate::lookup::walk::{step_of, walk_start, walk_step, SpecAnswers, Step, WalkView, Walked};
use crate::text::{index_from, joined, texts};

verus! {

/// The name under which a spec is filed: the first that is not empty.
pub open spec fn filing_name(spec: Spec) -> Seq<char> {
    primary_of(texts(spec.names@), 0)
}

/// The first name, where it is not empty, is the one a spec is filed under.
pub proof fn law_specs_are_filed_under_their_first_name(spec: Spec)
    requires
        spec.names@.len() > 0,
        spec.names@[0]@.len() > 0,
    ensures
        filing_name(spec) == spec.names@[0]@,
{
    assert(texts(spec.names@)[0] == spec.names@[0]@);
}

/// The names under which the specs of a chain are filed.
pub open spec fn filing_path(chain: Seq<Arc<Spec>>) -> Seq<Seq<char>> {
    Seq::new(chain.len(), |i: int| filing_name(*chain[i]))
}

proof fn lemma_trace_chain(
    answers: SpecAnswers,
    t: TraceView,
    w: WalkView,
    tokens: Seq<Seq<char>>,
    limit: int,
    chain: Seq<Arc<Spec>>,
) -> (end: (TraceView, WalkView))
    requires
        is_at_command(w),
        0 <= w.index,
        t.positional == 0,
        w.index + chain.len() <= limit <= tokens.len(),
        forall|i: int| 0 <= i < chain.len() ==> is_settled(answers, *(#[trigger] chain[i])),
        forall|i: int| 0 <= i < chain.len() ==> !is_dashed(#[trigger] tokens[w.index + i]),
        chain.len() > 0 ==> names_subcommand(*w.current, tokens[w.index], chain[0]),
        forall|i: int|
            0 < i < chain.len() ==> names_subcommand(
                *chain[i - 1],
                #[trigger] tokens[w.index + i],
                chain[i],
            ),
    ensures
        trace_from(answers, t, w, tokens, limit) == trace_from(
            answers,
            end.0,
            end.1,
            tokens,
            limit,
        ),
        end.1.index == w.index + chain.len(),
        is_at_command(end.1),
        end.1.current == if chain.len() > 0 {
            chain.last()
        } else {
            w.current
        },
        end.0 == (TraceView { path: t.path + filing_path(chain), ..t }),
        chain.len() == 0 ==> end.1 == w,
        chain.len() > 0 ==> end.1.path_end == end.1.index,
    decreases chain.len(),
{
    if chain.len() == 0 {
        assert(t.path + filing_path(chain) =~= t.path);
        (t, w)
    } else {
        let word = tokens[w.index + 0];
        assert(!is_dashed(tokens[w.index + 0]));
        let list = w.current.subcommands@;
        let k = choose|k: int|
            {
                &&& 0 <= k < list.len()
                &&& #[trigger] list[k] == chain[0]
                &&& texts(chain[0].names@).contains(word)
                &&& forall|j: int| 0 <= j < k ==> !texts((#[trigger] list[j]).names@).contains(word)
            };
        lemma_spec_named(list, word, 0, k);
        reveal_strlit("--");
        assert(list.len() == w.current.subcommands.len());
        assert(k as usize == k);
        assert(step_of(w, tokens) == Step::Child(k as usize));
        let next = walk_step(answers, w, tokens, limit)->Done_0;
        assert(is_settled(answers, *chain[0]));
        let after = traced(t, w, tokens, next);
        assert(after == (TraceView { path: t.path.push(filing_name(*chain[0])), ..t }));
        let rest = chain.skip(1);
        assert forall|i: int| 0 <= i < rest.len() implies is_settled(answers, *(#[trigger] rest[i])) by {
            assert(rest[i] == chain[i + 1]);
        }
        assert forall|i: int| 0 <= i < rest.len() implies !is_dashed(#[trigger] tokens[next.index + i]) by {
            assert(tokens[next.index + i] == tokens[w.index + (i + 1)]);
        }
        assert forall|i: int| 0 < i < rest.len() implies names_subcommand(
            *rest[i - 1],
            #[trigger] tokens[next.index + i],
            rest[i],
        ) by {
            assert(rest[i] == chain[i + 1]);
            assert(rest[i - 1] == chain[i]);
            assert(tokens[next.index + i] == tokens[w.index + (i + 1)]);
        }
        if rest.len() > 0 {
            assert(tokens[w.index + 1] == tokens[next.index]);
            assert(rest[0] == chain[1]);
        }
        let end = lemma_trace_chain(answers, after, next, tokens, limit, rest);
        assert(t.path.push(filing_name(*chain[0])) + filing_path(rest) =~= t.path + filing_path(
            chain,
        ));
        if rest.len() > 0 {
            assert(rest.last() == chain.last());
        }
        end
    }
}

/// The values of the words `tokens[from..to]`, the first in the slot `index`.
pub open spec fn filed_words(
    root: Seq<char>,
    path: Seq<Seq<char>>,
    tokens: Seq<Seq<char>>,
    from: int,
    to: int,
) -> Seq<(SlotView, Seq<char>)> {
    Seq::new(
        (to - from) as nat,
        |i: int| (SlotView { root, path, option: None, index: i }, tokens[from + i]),
    )
}

proof fn lemma_trace_words(
    answers: SpecAnswers,
    t: TraceView,
    w: WalkView,
    tokens: Seq<Seq<char>>,
    limit: int,
    from: int,
)
    requires
        w.option_arg is None,
        !w.after_dashes,
        0 < from <= w.index <= limit <= tokens.len(),
        w.positional == w.index - from,
        t.positional == w.positional,
        w.path_end <= from,
        limit - from <= w.current.args@.len(),
        takes_single_words(w.current.args@),
        forall|i: int| w.index <= i < limit ==> !is_dashed(#[trigger] tokens[i]),
        w.entered || w.index == limit || names_nothing(*w.current, tokens[w.index]),
        t.values == filed_words(t.root, t.path, tokens, from, w.index),
    ensures
        trace_from(answers, t, w, tokens, limit) is Done,
        ({
            let end = trace_from(answers, t, w, tokens, limit)->Done_0;
            &&& end.0 == (TraceView {
                positional: limit - from,
                values: filed_words(t.root, t.path, tokens, from, limit),
                ..t
            })
            &&& end.1.current == w.current
            &&& end.1.option_arg is None
        }),
    decreases limit - w.index,
{
    if w.index < limit {
        let word = tokens[w.index];
        reveal_strlit("--");
        assert(!is_dashed(word));
        if !w.entered {
            lemma_spec_unnamed(w.current.subcommands@, word, 0);
        }
        let args = w.current.args@;
        assert(args.len() == w.current.args.len());
        assert(is_plain_arg(*args[w.positional]));
        assert(arg_slot(args, w.positional) == Some(w.positional));
        assert(w.positional as usize == w.positional);
        assert(step_of(w, tokens) == Step::Slot(w.positional as usize));
        let next = walk_step(answers, w, tokens, limit)->Done_0;
        assert(next == (WalkView {
            index: w.index + 1,
            positional: w.positional + 1,
            entered: true,
            ..w
        }));
        let after = traced(t, w, tokens, next);
        assert(after.values =~= filed_words(t.root, t.path, tokens, from, w.index + 1));
        lemma_trace_words(answers, after, next, tokens, limit, from);
    }
}

/// The words behind a chain of subcommands are filed one by one in the slots of the
/// last one's arguments, and the slot under the caret is the next one: the one in
/// which one more word would be filed.
pub proof fn law_words_are_filed_in_their_slots(
    answers: SpecAnswers,
    root: Arc<Spec>,
    tokens: Seq<Seq<char>>,
    chain: Seq<Arc<Spec>>,
    last: Arc<Spec>,
)
    requires
        is_settled(answers, *root),
        1 + chain.len() <= tokens.len(),
        forall|i: int| 0 <= i < chain.len() ==> is_settled(answers, *(#[trigger] chain[i])),
        forall|i: int| 1 <= i < tokens.len() ==> !is_dashed(#[trigger] tokens[i]),
        chain.len() > 0 ==> names_subcommand(*root, tokens[1], chain[0]),
        forall|i: int|
            0 < i < chain.len() ==> names_subcommand(
                *chain[i - 1],
                tokens[i + 1],
                #[trigger] chain[i],
            ),
        last == if chain.len() == 0 {
            root
        } else {
            chain.last()
        },
        takes_single_words(last.args@),
        tokens.len() - 1 - chain.len() <= last.args@.len(),
        tokens.len() > 1 + chain.len() ==> names_nothing(*last, tokens[1 + chain.len() as int]),
    ensures
        trace_of(answers, root, tokens, tokens.len() as int) is Done,
        ({
            let trace = trace_of(answers, root, tokens, tokens.len() as int)->Done_0;
            let name = filing_name(*root);
            let path = filing_path(chain);
            let count = tokens.len() - 1 - chain.len();
            &&& trace.values == filed_words(
                name,
                path,
                tokens,
                1 + chain.len() as int,
                tokens.len() as int,
            )
            &&& count < last.args@.len() ==> trace.current == seq![
                SlotView { root: name, path, option: None, index: count },
            ]
            &&& count == last.args@.len() ==> trace.current.len() == 0
        }),
{
    let limit = tokens.len() as int;
    let w = walk_start(answers, root)->Done_0;
    assert forall|i: int| 0 <= i < chain.len() implies !is_dashed(#[trigger] tokens[w.index + i]) by {
        assert(!is_dashed(tokens[i + 1]));
    }
    assert forall|i: int| 0 < i < chain.len() implies names_subcommand(
        *chain[i - 1],
        #[trigger] tokens[w.index + i],
        chain[i],
    ) by {
        assert(chain[i] == chain[i]);
    }
    let t = trace_start_of(root);
    let (mid, at) = lemma_trace_chain(answers, t, w, tokens, limit, chain);
    let from = 1 + chain.len() as int;
    assert(at.index == from);
    assert(mid.path =~= filing_path(chain));
    assert(mid.values =~= filed_words(mid.root, mid.path, tokens, from, from));
    lemma_trace_words(answers, mid, at, tokens, limit, from);
    let end = trace_from(answers, mid, at, tokens, limit)->Done_0;
    let trace = trace_of(answers, root, tokens, limit)->Done_0;
    let count = limit - from;
    if count < last.args@.len() {
        assert(trace.current =~= seq![
            SlotView { root: filing_name(*root), path: filing_path(chain), option: None, index: count },
        ]);
    }
}

spec fn trace_start_of(root: Arc<Spec>) -> TraceView {
    trace_start(*root)
}

proof fn lemma_command_end(tokens: Seq<Seq<char>>, i: int)
    requires
        0 <= i <= tokens.len(),
    ensures
        i <= command_end(tokens, i) <= tokens.len(),
        forall|k: int| i <= k < command_end(tokens, i) ==> !separates(#[trigger] tokens[k]),
        command_end(tokens, i) < tokens.len() ==> separates(tokens[command_end(tokens, i)]),
    decreases tokens.len() - i,
{
    if i < tokens.len() && !separates(tokens[i]) {
        lemma_command_end(tokens, i + 1);
    }
}

proof fn lemma_commands_shift(p: Seq<Seq<char>>, s: Seq<Seq<char>>, i: int)
    requires
        0 <= i <= s.len(),
    ensures
        commands_from(p + s, p.len() + i) == commands_from(s, i),
    decreases s.len() - i,
{
    if i < s.len() {
        let end = command_end(s, i);
        lemma_command_end(s, i);
        lemma_end_shift(p, s, i);
        assert((p + s).subrange(p.len() + i, p.len() + end) =~= s.subrange(i, end));
        if end + 1 <= s.len() {
            lemma_commands_shift(p, s, end + 1);
        }
    }
}

proof fn lemma_end_shift(p: Seq<Seq<char>>, s: Seq<Seq<char>>, i: int)
    requires
        0 <= i <= s.len(),
    ensures
        command_end(p + s, p.len() + i) == p.len() + command_end(s, i),
    decreases s.len() - i,
{
    if i < s.len() {
        assert((p + s)[p.len() + i] == s[i]);
        lemma_end_shift(p, s, i + 1);
    }
}

/// Operators part the commands of a line: what stands before one is a command of
/// its own, and what stands behind it is read on its own.
pub proof fn law_operators_part_commands(a: Seq<Seq<char>>, op: Seq<char>, b: Seq<Seq<char>>)
    requires
        forall|i: int| 0 <= i < a.len() ==> !separates(#[trigger] a[i]),
        op == "&&"@ || op == "||"@ || op == "|"@ || op == ";"@ || op == "&"@,
    ensures
        commands_from(a + seq![op] + b, 0) == seq![a] + commands_from(b, 0),
        a.len() > 0 ==> commands_from(a, 0) == seq![a],
{
    let s = a + seq![op] + b;
    let n = a.len() as int;
    lemma_command_end(s, 0);
    let end = command_end(s, 0);
    assert(s[n] == op);
    assert(separates(s[n]));
    assert forall|k: int| 0 <= k < n implies !separates(#[trigger] s[k]) by {
        assert(s[k] == a[k]);
    }
    assert(end == n);
    assert(s.subrange(0, n) =~= a);
    let front = a + seq![op];
    assert(s =~= front + b);
    lemma_commands_shift(front, b, 0);
    if a.len() > 0 {
        lemma_command_end(a, 0);
        let stop = command_end(a, 0);
        if stop < a.len() {
            assert(!separates(a[stop]));
        }
        assert(a.subrange(0, a.len() as int) =~= a);
        assert(commands_from(a, a.len() as int + 1).len() == 0);
        assert(commands_from(a, 0) =~= seq![a]);
    }
}

/// A definition of an alias is read with or without the word before it.
pub proof fn law_aliases_are_defined(name: Seq<char>, value: Seq<char>)
    requires
        name.len() > 0,
        is_plain_word(name + "="@ + value),
        forall|k: int| 0 <= k < name.len() ==> #[trigger] name[k] != '=',
        name + "="@ + value != "alias"@,
    ensures
        alias_in(name + "="@ + value) == Some((name, words(value))),
        alias_in("alias "@ + name + "="@ + value) == Some((name, words(value))),
{
    reveal_strlit("=");
    reveal_strlit("alias");
    reveal_strlit("alias ");
    let definition = name + "="@ + value;
    let list = seq![definition];
    law_plain_words_read_back(list);
    assert(spaced(list) == definition);
    let n = name.len() as int;
    super::text::law_index_is_the_first(definition, '=', 0);
    assert(definition[n] == '=');
    assert forall|k: int| 0 <= k < n implies definition[k] != '=' by {
        assert(definition[k] == name[k]);
    }
    assert(index_from(definition, '=', 0) == n);
    assert(definition.take(n) =~= name);
    assert(definition.skip(n + 1) =~= value);
    let two = seq!["alias"@, definition];
    assert forall|i: int| 0 <= i < two.len() implies is_plain_word(#[trigger] two[i]) by {
        if i == 0 {
            let w = "alias"@;
            assert(w.len() == 5);
            assert forall|k: int| 0 <= k < w.len() implies !crate::text::is_space(#[trigger] w[k])
                && !crate::lookup::shell::is_quote(w[k]) && w[k] != '\\' by {
                assert(k == 0 || k == 1 || k == 2 || k == 3 || k == 4);
            }
        }
    }
    law_plain_words_read_back(two);
    assert(two.drop_last() =~= seq!["alias"@]);
    assert(joined(seq!["alias"@], seq![' ']) == "alias"@);
    assert(spaced(two) =~= "alias "@ + name + "="@ + value) by {
        assert(spaced(two) == joined(two.drop_last(), seq![' ']) + seq![' '] + two.last());
        assert("alias "@ =~= "alias"@ + seq![' ']);
    }
}

/// A command whose first word is an alias is the alias's words and the rest; any
/// other command stays.
pub proof fn law_aliases_are_expanded(
    aliases: Seq<(Seq<char>, Seq<Seq<char>>)>,
    command: Seq<Seq<char>>,
    k: int,
)
    requires
        command.len() > 0,
    ensures
        0 <= k < aliases.len() && aliases[k].0 == command[0] && (forall|j: int|
            0 <= j < k ==> (#[trigger] aliases[j]).0 != command[0]) ==> alias_expanded(
            command,
            aliases,
        ) == aliases[k].1 + command.skip(1),
        (forall|j: int| 0 <= j < aliases.len() ==> (#[trigger] aliases[j]).0 != command[0])
            ==> alias_expanded(command, aliases) == command,
{
    if 0 <= k < aliases.len() && aliases[k].0 == command[0] && (forall|j: int|
        0 <= j < k ==> (#[trigger] aliases[j]).0 != command[0]) {
        lemma_alias_named(aliases, command[0], 0, k);
    }
    if forall|j: int| 0 <= j < aliases.len() ==> (#[trigger] aliases[j]).0 != command[0] {
        lemma_alias_unnamed(aliases, command[0], 0);
    }
}

proof fn lemma_alias_named(
    aliases: Seq<(Seq<char>, Seq<Seq<char>>)>,
    name: Seq<char>,
    i: int,
    k: int,
)
    requires
        0 <= i <= k < aliases.len(),
        aliases[k].0 == name,
        forall|j: int| 0 <= j < k ==> (#[trigger] aliases[j]).0 != name,
    ensures
        alias_named(aliases, name, i) == Some(aliases[k].1),
    decreases k - i,
{
    if i < k {
        assert(aliases[i].0 != name);
        lemma_alias_named(aliases, name, i + 1, k);
    }
}

proof fn lemma_alias_unnamed(aliases: Seq<(Seq<char>, Seq<Seq<char>>)>, name: Seq<char>, i: int)
    requires
        0 <= i,
        forall|j: int| 0 <= j < aliases.len() ==> (#[trigger] aliases[j]).0 != name,
    ensures
        alias_named(aliases, name, i) is None,
    decreases aliases.len() - i,
{
    if i < aliases.len() {
        assert(aliases[i].0 != name);
        lemma_alias_unnamed(aliases, name, i + 1);
    }
}

/// What is kept for a command are the values of its own slots that are not empty.
pub proof fn law_values_are_filed_under_their_command(
    values: Seq<(SlotView, Seq<char>)>,
    root: Seq<char>,
)
    ensures
        forall|v: (SlotView, Seq<char>)| #[trigger]
            filed_under(values, root).contains(v) <==> values.contains(v) && v.0.root == root
                && v.1.len() > 0,
    decreases values.len(),
{
    if values.len() > 0 {
        let rest = values.drop_last();
        law_values_are_filed_under_their_command(rest, root);
        let last = values.last();
        assert(values =~= rest.push(last));
        assert forall|v: (SlotView, Seq<char>)| #[trigger]
            filed_under(values, root).contains(v) <==> values.contains(v) && v.0.root == root
                && v.1.len() > 0 by {
            lemma_push_contains(rest, last, v);
            lemma_push_contains(filed_under(rest, root), last, v);
            assert(filed_under(rest, root).contains(v) <==> rest.contains(v) && v.0.root == root
                && v.1.len() > 0);
        }
    }
}

/// The commands of two histories, one behind the other, are filed as those of the
/// first and then those of the second.
pub proof fn law_histories_are_filed_in_order(
    answers: SpecAnswers,
    aliases: Seq<(Seq<char>, Seq<Seq<char>>)>,
    a: Seq<Seq<Seq<char>>>,
    b: Seq<Seq<Seq<char>>>,
    root: Seq<char>,
)
    requires
        index_of_commands(answers, aliases, a, root) is Done,
        index_of_commands(answers, aliases, b, root) is Done,
    ensures
        index_of_commands(answers, aliases, a + b, root) == Walked::Done(
            index_of_commands(answers, aliases, a, root)->Done_0 + index_of_commands(
                answers,
                aliases,
                b,
                root,
            )->Done_0,
        ),
    decreases b.len(),
{
    let first = index_of_commands(answers, aliases, a, root)->Done_0;
    let second = index_of_commands(answers, aliases, b, root)->Done_0;
    if b.len() == 0 {
        assert(a + b =~= a);
        assert(first + second =~= first);
    } else {
        law_histories_are_filed_in_order(answers, aliases, a, b.drop_last(), root);
        assert((a + b).drop_last() =~= a + b.drop_last());
        assert((a + b).last() == b.last());
        let had = index_of_commands(answers, aliases, b.drop_last(), root)->Done_0;
        let more = crate::history::command_values(
            answers,
            alias_expanded(b.last(), aliases),
            root,
        )->Done_0;
        assert(second == had + more);
        assert(first + had + more =~= first + second);
    }
}

proof fn lemma_recent_begins(out: Seq<Seq<char>>, values: Seq<Seq<char>>)
    ensures
        with_recent(out, values).len() >= out.len(),
        with_recent(out, values).take(out.len() as int) == out,
        forall|v: Seq<char>| #[trigger]
            with_recent(out, values).contains(v) <==> out.contains(v) || values.contains(v),
    decreases values.len(),
{
    let whole = with_recent(out, values);
    if values.len() == 0 {
        assert(whole.take(out.len() as int) =~= out);
    } else {
        let rest = values.drop_last();
        let last = values.last();
        assert(values =~= rest.push(last));
        let next = if out.contains(last) { out } else { out.push(last) };
        lemma_recent_begins(next, rest);
        assert(whole.take(out.len() as int) =~= whole.take(next.len() as int).take(
            out.len() as int,
        ));
        assert(next.take(out.len() as int) =~= out);
        assert forall|v: Seq<char>| #[trigger] whole.contains(v) <==> out.contains(v)
            || values.contains(v) by {
            lemma_push_contains(rest, last, v);
            lemma_push_contains(out, last, v);
            assert(with_recent(next, rest).contains(v) <==> next.contains(v) || rest.contains(v));
        }
    }
}

/// The values of a slot are offered with the most recent first, and each once: the
/// last one that was used is the first one offered.
pub proof fn law_recent_values_come_first(values: Seq<Seq<char>>)
    requires
        values.len() > 0,
    ensures
        with_recent(Seq::empty(), values).len() > 0,
        with_recent(Seq::empty(), values)[0] == values.last(),
        forall|v: Seq<char>| #[trigger]
            with_recent(Seq::empty(), values).contains(v) <==> values.contains(v),
{
    let none = Seq::<Seq<char>>::empty();
    let whole = with_recent(none, values);
    lemma_recent_begins(none, values);
    let next = none.push(values.last());
    lemma_recent_begins(next, values.drop_last());
    assert(!none.contains(values.last()));
    assert(whole.take(1)[0] == next[0]);
}

/// A slot's values are those that were filed in it, in their order.
pub proof fn law_slots_hold_their_values(
    index: Seq<(SlotView, Seq<char>)>,
    more: Seq<(SlotView, Seq<char>)>,
    slot: SlotView,
)
    ensures
        forall|v: Seq<char>| #[trigger]
            slot_values(index, slot).contains(v) <==> index.contains((slot, v)),
        slot_values(index + more, slot) == slot_values(index, slot) + slot_values(more, slot),
    decreases index.len() + more.len(),
{
    if more.len() > 0 {
        law_slots_hold_their_values(index, more.drop_last(), slot);
        assert((index + more).drop_last() =~= index + more.drop_last());
        assert((index + more).last() == more.last());
        assert(slot_values(index + more, slot) =~= slot_values(index, slot) + slot_values(
            more,
            slot,
        ));
    } else {
        assert(index + more =~= index);
        assert(slot_values(index + more, slot) =~= slot_values(index, slot) + slot_values(
            more,
            slot,
        ));
        if index.len() > 0 {
            let rest = index.drop_last();
            law_slots_hold_their_values(rest, more, slot);
            let last = index.last();
            assert(index =~= rest.push(last));
            assert forall|v: Seq<char>| #[trigger]
                slot_values(index, slot).contains(v) <==> index.contains((slot, v)) by {
                lemma_push_contains(rest, last, (slot, v));
                lemma_push_contains(slot_values(rest, slot), last.1, v);
                assert(slot_values(rest, slot).contains(v) <==> rest.contains((slot, v)));
            }
        }
    }
}

/// The value of an option is filed in the option's slot, under the option's first
/// name, and not among the arguments of the command.
pub proof fn law_option_values_are_filed(
    answers: SpecAnswers,
    t: TraceView,
    w: WalkView,
    tokens: Seq<Seq<char>>,
    option: Arc<OptionSpec>,
)
    requires
        is_at_command(w),
        0 <= w.index,
        w.path_end <= w.index,
        w.options().len() <= usize::MAX,
        tokens.len() == w.index + 2,
        names_flag(w.options(), tokens[w.index], option, w.directives),
        option.args@.len() > 0,
        !option.args@[0].is_optional,
        !option.args@[0].is_variadic,
        is_plain_arg(*option.args@[0]),
        option.names@.len() > 0,
        option.names@[0]@.len() > 0,
    ensures
        trace_from(answers, t, w, tokens, tokens.len() as int) is Done,
        ({
            let end = trace_from(answers, t, w, tokens, tokens.len() as int)->Done_0.0;
            &&& end.values == t.values.push(
                (
                    SlotView {
                        root: t.root,
                        path: t.path,
                        option: Some(option.names@[0]@),
                        index: 0,
                    },
                    tokens[w.index + 1],
                ),
            )
            &&& end.positional == t.positional
            &&& end.path == t.path
        }),
{
    lemma_flag(w.options(), tokens[w.index], option, w.directives);
    reveal_strlit("--");
    let limit = tokens.len() as int;
    let next = walk_step(answers, w, tokens, limit)->Done_0;
    assert(next.index == limit);
    assert(next.path_end == w.path_end);
    let after = traced(t, w, tokens, next);
    assert(texts(option.names@)[0] == option.names@[0]@);
    assert(trace_from(answers, after, next, tokens, limit) == Walked::Done((after, next)));
}

/// The definitions of two lists of aliases, one behind the other, are those of the
/// first and then those of the second.
pub proof fn law_aliases_keep_their_order(a: Seq<Seq<char>>, b: Seq<Seq<char>>, line: Seq<char>)
    ensures
        aliases_in(a + b) == aliases_in(a) + aliases_in(b),
        aliases_in(seq![line]) == match alias_in(line) {
            Some(alias) => seq![alias],
            None => Seq::empty(),
        },
    decreases b.len(),
{
    let none = Seq::<Seq<char>>::empty();
    assert(seq![line].drop_last() =~= none);
    assert(aliases_in(none) =~= Seq::empty());
    if let Some(alias) = alias_in(line) {
        assert(aliases_in(seq![line]) =~= seq![alias]);
    }
    if b.len() == 0 {
        assert(a + b =~= a);
        assert(aliases_in(a) + aliases_in(b) =~= aliases_in(a));
    } else {
        law_aliases_keep_their_order(a, b.drop_last(), line);
        assert((a + b).drop_last() =~= a + b.drop_last());
        assert((a + b).last() == b.last());
        assert(aliases_in(a + b) =~= aliases_in(a) + aliases_in(b));
    }
}

} // verus!
