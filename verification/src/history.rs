//! Argument values from shell history.
//!
//! Every history line is walked along its spec, and each argument value is
//! filed under the slot that it filled: the spec that owns the slot, the
//! subcommands below it, and the place among the positional words or among the
//! values of an option. A slot offers what earlier commands put in it, whatever
//! options stood in between. The value of a wrapped command (`sudo curl <url>`)
//! is filed under the inner spec.
//!
//! Places are not cut off at a variadic argument: a second value of the last
//! argument has no slot and is neither filed nor offered.
use std::sync::Arc;
use vstd::prelude::*;

use crate::ir::{ArgSpec, OptionSpec, Spec};
use crate::lookup::shell::{tokenize, words};
use crate::lookup::walk::{
    find_step, spec_answer, start_walk, step_of, step_walk, walk_start,
    walk_step, Need, NeedView, SpecAnswers, Step, WalkState, WalkView, Walked,
};
use crate::rank::source::base_at;
use crate::tree::share_all;
use crate::text::{
    chars_of, copy_texts, holds_text, index_from, index_of, lines, lines_of, opt_text, same,
    same_optional, same_texts, share, text_range, texts,
};

verus! {

// ---------------------------------------------------------------------------
// Slots
// ---------------------------------------------------------------------------
/// Where an argument value belongs. Names are primary names, so the aliases of
/// a subcommand or an option share a slot.
#[derive(Debug, PartialEq, Eq)]
pub struct ArgSlot {
    /// The spec that owns the slot.
    pub root: String,
    /// The subcommands below it.
    pub path: Vec<String>,
    /// The option that takes the value; absent for positional words.
    pub option: Option<String>,
    pub index: usize,
}

/// Where an argument value belongs.
#[verifier::ext_equal]
pub struct SlotView {
    pub root: Seq<char>,
    pub path: Seq<Seq<char>>,
    pub option: Option<Seq<char>>,
    pub index: int,
}

impl View for ArgSlot {
    type V = SlotView;

    open spec fn view(&self) -> SlotView {
        SlotView {
            root: self.root@,
            path: texts(self.path@),
            option: opt_text(self.option),
            index: self.index as int,
        }
    }
}

/// The first non-empty name.
pub open spec fn primary_of(names: Seq<Seq<char>>, i: int) -> Seq<char>
    decreases names.len() - i,
{
    if i < 0 || i >= names.len() {
        Seq::empty()
    } else if names[i].len() > 0 {
        names[i]
    } else {
        primary_of(names, i + 1)
    }
}

/// Computes [`primary_of`].
pub fn primary_name(names: &[String]) -> (name: String)
    ensures
        name@ == primary_of(texts(names@), 0),
{
    let ghost all = texts(names@);
    let mut i: usize = 0;
    while i < names.len()
        invariant
            i <= names@.len(),
            all == texts(names@),
            primary_of(all, 0) == primary_of(all, i as int),
        decreases names@.len() - i,
    {
        if !names[i].as_str().is_empty() {
            return names[i].clone();
        }
        i += 1;
    }
    String::new()
}

/// Whether two slots are the same.
pub fn same_slot(a: &ArgSlot, b: &ArgSlot) -> (equal: bool)
    ensures
        equal == (a@ == b@),
{
    a.index == b.index && same(&a.root, &b.root) && same_optional(&a.option, &b.option)
        && same_texts(&a.path, &b.path)
}

// ---------------------------------------------------------------------------
// Following a walk
// ---------------------------------------------------------------------------
/// What is recorded along a walk.
pub struct WalkTrace {
    root: String,
    path: Vec<String>,
    /// The number of positional words in the current scope.
    positional: usize,
    /// The option whose argument is being filled.
    option: Option<Arc<OptionSpec>>,
    /// Every argument value and its slot, in order.
    pub values: Vec<(ArgSlot, String)>,
    /// The slots that the next word would fill: the positional one first, then
    /// the option argument.
    pub current: Vec<ArgSlot>,
}

/// What is recorded along a walk.
pub struct TraceView {
    pub root: Seq<char>,
    pub path: Seq<Seq<char>>,
    pub positional: int,
    pub option: Option<Arc<OptionSpec>>,
    pub values: Seq<(SlotView, Seq<char>)>,
    pub current: Seq<SlotView>,
}

/// Values with their slots.
pub open spec fn filed(values: Seq<(ArgSlot, String)>) -> Seq<(SlotView, Seq<char>)> {
    Seq::new(values.len(), |i: int| (values[i].0@, values[i].1@))
}

/// The slots of a list.
pub open spec fn slot_views(slots: Seq<ArgSlot>) -> Seq<SlotView> {
    Seq::new(slots.len(), |i: int| slots[i]@)
}

impl View for WalkTrace {
    type V = TraceView;

    closed spec fn view(&self) -> TraceView {
        TraceView {
            root: self.root@,
            path: texts(self.path@),
            positional: self.positional as int,
            option: self.option,
            values: filed(self.values@),
            current: slot_views(self.current@),
        }
    }
}

impl TraceView {
    /// The slot at a place of the current scope.
    pub open spec fn slot(self, option: Option<Arc<OptionSpec>>, index: int) -> SlotView {
        SlotView {
            root: self.root,
            path: self.path,
            option: match option {
                Some(option) => Some(primary_of(texts(option.names@), 0)),
                None => None,
            },
            index,
        }
    }

    /// With a positional value recorded, where the spec has such an argument.
    pub open spec fn with_positional(
        self,
        args: Seq<Arc<ArgSpec>>,
        index: int,
        value: Seq<char>,
    ) -> TraceView {
        if index < args.len() {
            TraceView { values: self.values.push((self.slot(None, index), value)), ..self }
        } else {
            self
        }
    }

    /// With an option value recorded, where the option has such an argument.
    pub open spec fn with_option_arg(
        self,
        option: Arc<OptionSpec>,
        index: int,
        value: Seq<char>,
    ) -> TraceView {
        if index < option.args@.len() {
            TraceView { values: self.values.push((self.slot(Some(option), index), value)), ..self }
        } else {
            self
        }
    }

    /// Behind the switch to another spec.
    pub open spec fn in_root(self, spec: Spec) -> TraceView {
        TraceView {
            root: primary_of(texts(spec.names@), 0),
            path: Seq::empty(),
            positional: 0,
            option: None,
            ..self
        }
    }

    /// Below a subcommand.
    pub open spec fn in_subcommand(self, spec: Spec) -> TraceView {
        TraceView {
            path: self.path.push(primary_of(texts(spec.names@), 0)),
            positional: 0,
            ..self
        }
    }

    /// With the slots that the next word would fill.
    pub open spec fn with_current(
        self,
        args: Seq<Arc<ArgSpec>>,
        positional: int,
        option_arg: Option<(Arc<OptionSpec>, int)>,
    ) -> TraceView {
        let own: Seq<SlotView> = if positional < args.len() {
            seq![self.slot(None, positional)]
        } else {
            Seq::empty()
        };
        let of_option: Seq<SlotView> = match option_arg {
            Some((option, index)) => if index < option.args@.len() {
                seq![self.slot(Some(option), index)]
            } else {
                Seq::empty()
            },
            None => Seq::empty(),
        };
        TraceView { current: own + of_option, ..self }
    }
}

/// A trace at the start of a walk.
pub open spec fn trace_start(root: Spec) -> TraceView {
    TraceView {
        root: primary_of(texts(root.names@), 0),
        path: Seq::empty(),
        positional: 0,
        option: None,
        values: Seq::empty(),
        current: Seq::empty(),
    }
}

/// The trace behind a step of a walk from `w` to `next`. A value that makes
/// another spec take over is not recorded.
pub open spec fn traced(
    t: TraceView,
    w: WalkView,
    tokens: Seq<Seq<char>>,
    next: WalkView,
) -> TraceView {
    let token = tokens[w.index];
    let switched = next.path_end == next.index;
    match step_of(w, tokens) {
        Step::Dashes => t,
        Step::Option(r) => {
            let option = w.options()[r.option as int];
            if option.args@.len() == 0 {
                t
            } else if switched {
                t.in_root(*next.current)
            } else {
                let open = TraceView { option: Some(option), ..t };
                match r.value {
                    Some(v) => open.with_option_arg(option, 0, token.skip(v as int)),
                    None => if next.index == w.index + 2 {
                        open.with_option_arg(option, 0, tokens[w.index + 1])
                    } else {
                        open
                    },
                }
            }
        },
        Step::Fill => match t.option {
            Some(option) => t.with_option_arg(option, w.option_arg->Some_0.1, token),
            None => t,
        },
        Step::Child(i) => t.in_subcommand(*next.current),
        _ => if switched {
            t.in_root(*next.current)
        } else {
            TraceView {
                positional: t.positional + 1,
                ..t.with_positional(w.current.args@, t.positional, token)
            }
        },
    }
}

/// The trace behind the words of a command, and where its walk ends.
pub open spec fn trace_from(
    answers: SpecAnswers,
    t: TraceView,
    w: WalkView,
    tokens: Seq<Seq<char>>,
    limit: int,
) -> Walked<(TraceView, WalkView)>
    decreases limit - w.index,
{
    if w.index >= limit {
        Walked::Done((t, w))
    } else {
        match walk_step(answers, w, tokens, limit) {
            Walked::Needs(need) => Walked::Needs(need),
            Walked::Done(next) => {
                let after = traced(t, w, tokens, next);
                if next.index > w.index {
                    trace_from(answers, after, next, tokens, limit)
                } else {
                    Walked::Done((after, next))
                }
            },
        }
    }
}

/// The trace of the first `limit` words of a command, with the slots that the
/// next word would fill.
pub open spec fn trace_of(
    answers: SpecAnswers,
    root: Arc<Spec>,
    tokens: Seq<Seq<char>>,
    limit: int,
) -> Walked<TraceView> {
    match walk_start(answers, root) {
        Walked::Needs(need) => Walked::Needs(need),
        Walked::Done(start) => match trace_from(
            answers,
            trace_start(*root),
            start,
            tokens,
            limit,
        ) {
            Walked::Needs(need) => Walked::Needs(need),
            Walked::Done((t, w)) => Walked::Done(
                t.with_current(
                    w.current.args@,
                    t.positional,
                    match (t.option, w.option_arg) {
                        (Some(option), Some((arg, count))) => Some((option, count)),
                        _ => None,
                    },
                ),
            ),
        },
    }
}

impl WalkTrace {
    /// A trace at the start of a walk.
    pub fn new(root: &Spec) -> (trace: WalkTrace)
        ensures
            trace@ == trace_start(*root),
    {
        let trace = WalkTrace {
            root: primary_name(&root.names),
            path: Vec::new(),
            positional: 0,
            option: None,
            values: Vec::new(),
            current: Vec::new(),
        };
        proof {
            assert(trace@.path =~= Seq::<Seq<char>>::empty());
            assert(trace@.values =~= Seq::<(SlotView, Seq<char>)>::empty());
            assert(trace@.current =~= Seq::<SlotView>::empty());
        }
        trace
    }

    /// Another spec takes over: what follows belongs to it.
    pub fn enter_root(&mut self, spec: &Spec)
        ensures
            final(self)@ == old(self)@.in_root(*spec),
    {
        self.root = primary_name(&spec.names);
        self.path = Vec::new();
        self.positional = 0;
        self.option = None;
        proof {
            assert(texts(self.path@) =~= Seq::<Seq<char>>::empty());
        }
    }

    /// A subcommand is entered.
    pub fn enter_subcommand(&mut self, spec: &Spec)
        ensures
            final(self)@ == old(self)@.in_subcommand(*spec),
    {
        let name = primary_name(&spec.names);
        self.path.push(name);
        self.positional = 0;
        proof {
            assert(texts(self.path@) =~= old(self)@.path.push(name@));
        }
    }

    fn slot(&self, option: Option<&Arc<OptionSpec>>, index: usize) -> (slot: ArgSlot)
        ensures
            slot@ == self@.slot(
                match option {
                    Some(option) => Some(*option),
                    None => None,
                },
                index as int,
            ),
    {
        let name: Option<String> = match option {
            Some(option) => Some(primary_name(&option.names)),
            None => None,
        };
        ArgSlot { root: self.root.clone(), path: copy_texts(&self.path), option: name, index }
    }

    /// Records the value of a positional word. Nothing is recorded past the
    /// spec's arguments.
    pub fn record_positional(&mut self, args: &[Arc<ArgSpec>], index: usize, value: &str)
        ensures
            final(self)@ == old(self)@.with_positional(args@, index as int, value@),
    {
        if index < args.len() {
            let slot = self.slot(None, index);
            let ghost had = self.values@;
            self.values.push((slot, value.to_owned()));
            proof {
                assert(filed(self.values@) =~= filed(had).push((slot@, value@)));
            }
        }
    }

    /// Records a value of an option. Nothing is recorded past the option's
    /// arguments.
    pub fn record_option_arg(&mut self, option: &Arc<OptionSpec>, index: usize, value: &str)
        ensures
            final(self)@ == old(self)@.with_option_arg(*option, index as int, value@),
    {
        if index < option.args.len() {
            let slot = self.slot(Some(option), index);
            let ghost had = self.values@;
            self.values.push((slot, value.to_owned()));
            proof {
                assert(filed(self.values@) =~= filed(had).push((slot@, value@)));
            }
        }
    }

    /// Notes the slots that the next word would fill.
    pub fn set_current(
        &mut self,
        args: &[Arc<ArgSpec>],
        positional: usize,
        option_arg: Option<(&Arc<OptionSpec>, usize)>,
    )
        ensures
            final(self)@ == old(self)@.with_current(
                args@,
                positional as int,
                match option_arg {
                    Some((option, index)) => Some((*option, index as int)),
                    None => None,
                },
            ),
    {
        let mut current: Vec<ArgSlot> = Vec::new();
        if positional < args.len() {
            current.push(self.slot(None, positional));
        }
        if let Some((option, index)) = option_arg {
            if index < option.args.len() {
                current.push(self.slot(Some(option), index));
            }
        }
        self.current = current;
        proof {
            let stated = old(self)@.with_current(
                args@,
                positional as int,
                match option_arg {
                    Some((option, index)) => Some((*option, index as int)),
                    None => None,
                },
            );
            assert(slot_views(self.current@) =~= stated.current);
        }
    }

    /// Computes [`traced`]: the trace behind a step of a walk.
    fn follow(&mut self, before: &WalkNote, tokens: &[String], next: &WalkState)
        requires
            before.index < tokens@.len(),
            before.sees(tokens@, next@),
            old(self)@.positional <= before.index,
        ensures
            final(self)@ == traced(old(self)@, before.walk@, texts(tokens@), next@),
            final(self)@.positional <= next@.index || !(next@.index > before.index),
    {
        let token = &tokens[before.index];
        let switched = next.path_end == next.index;
        proof {
            assert(texts(tokens@)[before.index as int] == token@);
        }
        match before.step {
            Step::Dashes => {},
            Step::Option(r) => {
                let option = match &before.option {
                    Some(option) => option,
                    None => {
                        return;
                    },
                };
                if option.args.len() == 0 {
                    return;
                }
                if switched {
                    self.enter_root(&next.current);
                    return;
                }
                self.option = Some(share(option));
                match r.value {
                    Some(v) => {
                        let w = chars_of(token);
                        let n = w.len();
                        let value = text_range(&w, v, n);
                        proof {
                            assert(w@.skip(v as int) =~= w@.subrange(v as int, n as int));
                        }
                        self.record_option_arg(option, 0, &value);
                    },
                    None => {
                        if before.index + 1 < tokens.len() && next.index == before.index + 2 {
                            proof {
                                assert(texts(tokens@)[before.index + 1] == tokens@[before.index
                                    + 1]@);
                            }
                            self.record_option_arg(option, 0, &tokens[before.index + 1]);
                        }
                    },
                }
            },
            Step::Fill => {
                let option = match &self.option {
                    Some(option) => share(option),
                    None => {
                        return;
                    },
                };
                self.record_option_arg(&option, before.filled, token);
            },
            Step::Child(_) => {
                self.enter_subcommand(&next.current);
            },
            _ => {
                if switched {
                    self.enter_root(&next.current);
                } else {
                    let place = self.positional;
                    self.record_positional(&before.args, place, token);
                    self.positional = place + 1;
                }
            },
        }
    }
}

/// What is kept of the state before a step.
struct WalkNote {
    index: usize,
    step: Step,
    /// The option that the word names.
    option: Option<Arc<OptionSpec>>,
    /// How many values the option argument had.
    filled: usize,
    args: Vec<Arc<ArgSpec>>,
    walk: Ghost<WalkView>,
}

impl WalkNote {
    spec fn sees(&self, tokens: Seq<String>, next: WalkView) -> bool {
        &&& self.walk@.index == self.index
        &&& self.step == step_of(self.walk@, texts(tokens))
        &&& self.args@ == self.walk@.current.args@
        &&& self.step matches Step::Option(r) ==> self.option == Some(
            self.walk@.options()[r.option as int],
        ) && (r.value matches Some(v) ==> v <= tokens[self.index as int]@.len()) && (next.index
            == self.index + 2 && r.value is None ==> self.index + 1 < tokens.len())
        &&& self.step is Fill ==> self.walk@.option_arg is Some && self.filled
            == self.walk@.option_arg->Some_0.1
    }
}

fn note_of(state: &WalkState, tokens: &[String]) -> (note: WalkNote)
    requires
        state.index < tokens@.len(),
    ensures
        note.walk@ == state@,
        note.index == state.index,
        note.step == step_of(state@, texts(tokens@)),
        note.args@ == state.current.args@,
        note.step matches Step::Option(r) ==> note.option == Some(
            state@.options()[r.option as int],
        ) && (r.value matches Some(v) ==> v <= tokens@[state.index as int]@.len()),
        note.step is Fill ==> state.option_arg is Some && note.filled == state.option_arg->Some_0.count,
{
    let step = find_step(state, tokens);
    let option: Option<Arc<OptionSpec>> = match step {
        Step::Option(r) => {
            let options = crate::lookup::options::gather_options(
                &state.current.options,
                &state.persistent,
            );
            Some(share(&options[r.option]))
        },
        _ => None,
    };
    let filled: usize = match &state.option_arg {
        Some(filling) => filling.count,
        None => 0,
    };
    WalkNote {
        index: state.index,
        step,
        option,
        filled,
        args: share_all(&state.current.args),
        walk: Ghost(state@),
    }
}

/// Walks the first `limit` words of a command and records its argument values
/// and the slots that the next word would fill.
pub fn annotate_command(answers: &SpecAnswers, root: Arc<Spec>, tokens: &[String], limit: usize) -> (
out: Result<WalkTrace, Need>)
    requires
        limit <= tokens@.len(),
    ensures
        match out {
            Ok(trace) => trace_of(*answers, root, texts(tokens@), limit as int) == Walked::Done(
                trace@,
            ),
            Err(need) => trace_of(*answers, root, texts(tokens@), limit as int) == Walked::<
                TraceView,
            >::Needs(need@),
        },
{
    let mut trace = WalkTrace::new(&root);
    let ghost first = trace@;
    let ghost base = root;
    let mut state = match start_walk(answers, root) {
        Err(need) => {
            return Err(need);
        },
        Ok(state) => state,
    };
    let ghost stated = trace_from(*answers, trace@, state@, texts(tokens@), limit as int);
    while state.index < limit
        invariant
            state.sound(*answers),
            base == root,
            1 <= state.index,
            limit <= tokens@.len(),
            trace@.positional <= state.index,
            stated == trace_from(*answers, trace@, state@, texts(tokens@), limit as int),
            trace_of(*answers, base, texts(tokens@), limit as int) == (match stated {
                Walked::Needs(need) => Walked::Needs(need),
                Walked::Done((t, w)) => Walked::Done(
                    t.with_current(
                        w.current.args@,
                        t.positional,
                        match (t.option, w.option_arg) {
                            (Some(option), Some((arg, count))) => Some((option, count)),
                            _ => None,
                        },
                    ),
                ),
            }),
        decreases limit - state.index,
    {
        let note = note_of(&state, tokens);
        match step_walk(answers, state, tokens, limit) {
            Err(need) => {
                return Err(need);
            },
            Ok(next) => {
                trace.follow(&note, tokens, &next);
                state = next;
            },
        }
    }
    let option = match &trace.option {
        Some(option) => Some(share(option)),
        None => None,
    };
    let place = trace.positional;
    match (&option, &state.option_arg) {
        (Some(option), Some(filling)) => {
            trace.set_current(&state.current.args, place, Some((option, filling.count)));
        },
        _ => {
            trace.set_current(&state.current.args, place, None);
        },
    }
    Ok(trace)
}

// ---------------------------------------------------------------------------
// The commands of a line
// ---------------------------------------------------------------------------
/// Whether a word ends one command and starts another.
pub open spec fn separates(token: Seq<char>) -> bool {
    token == "&&"@ || token == "||"@ || token == "|"@ || token == ";"@ || token == "&"@
}

/// Computes [`separates`].
pub fn is_command_separator(token: &str) -> (yes: bool)
    ensures
        yes == separates(token@),
{
    same(token, "&&") || same(token, "||") || same(token, "|") || same(token, ";") || same(
        token,
        "&",
    )
}

/// Where the command that starts at `from` ends.
pub open spec fn command_end(tokens: Seq<Seq<char>>, from: int) -> int
    decreases tokens.len() - from,
{
    if from < 0 || from >= tokens.len() {
        tokens.len() as int
    } else if separates(tokens[from]) {
        from
    } else {
        command_end(tokens, from + 1)
    }
}

proof fn lemma_command_end(tokens: Seq<Seq<char>>, from: int)
    requires
        0 <= from <= tokens.len(),
    ensures
        from <= command_end(tokens, from) <= tokens.len(),
    decreases tokens.len() - from,
{
    if from < tokens.len() {
        lemma_command_end(tokens, from + 1);
    }
}

/// The commands among the words from `start` on.
pub open spec fn commands_from(tokens: Seq<Seq<char>>, start: int) -> Seq<Seq<Seq<char>>>
    decreases tokens.len() as int + 1 - start,
    via commands_from_decreases
{
    if start < 0 || start >= tokens.len() {
        Seq::empty()
    } else {
        let end = command_end(tokens, start);
        seq![tokens.subrange(start, end)] + commands_from(tokens, end + 1)
    }
}

#[via_fn]
proof fn commands_from_decreases(tokens: Seq<Seq<char>>, start: int) {
    if 0 <= start < tokens.len() {
        lemma_command_end(tokens, start);
    }
}

/// The commands of history lines, in order.
pub open spec fn commands_in(lines: Seq<Seq<char>>) -> Seq<Seq<Seq<char>>>
    decreases lines.len(),
{
    if lines.len() == 0 {
        Seq::empty()
    } else {
        commands_in(lines.drop_last()) + commands_from(words(lines.last()), 0)
    }
}

/// The words of each command.
pub open spec fn command_words(commands: Seq<Vec<String>>) -> Seq<Seq<Seq<char>>> {
    Seq::new(commands.len(), |i: int| texts(commands[i]@))
}

fn copy_range(list: &[String], from: usize, to: usize) -> (out: Vec<String>)
    requires
        from <= to <= list@.len(),
    ensures
        texts(out@) == texts(list@).subrange(from as int, to as int),
{
    let mut out: Vec<String> = Vec::new();
    let mut i: usize = from;
    while i < to
        invariant
            from <= i <= to <= list@.len(),
            texts(out@) == texts(list@).subrange(from as int, i as int),
        decreases to - i,
    {
        let ghost had = out@;
        out.push(list[i].clone());
        i += 1;
        proof {
            assert(texts(out@) =~= texts(had).push(list@[i - 1]@));
            assert(texts(list@).subrange(from as int, i as int) =~= texts(list@).subrange(
                from as int,
                i - 1,
            ).push(list@[i - 1]@));
        }
    }
    proof {
        assert(texts(out@) =~= texts(list@).subrange(from as int, to as int));
    }
    out
}

/// Adds the commands of a line.
fn add_commands(commands: &mut Vec<Vec<String>>, line: &str)
    ensures
        command_words(final(commands)@) == command_words(old(commands)@) + commands_from(
            words(line@),
            0,
        ),
{
    let (tokens, _) = tokenize(line);
    let ghost all = texts(tokens@);
    let ghost stated = command_words(commands@) + commands_from(all, 0);
    let n = tokens.len();
    let mut start: usize = 0;
    while start < n
        invariant
            n == tokens@.len(),
            all == texts(tokens@),
            stated == command_words(commands@) + commands_from(all, start as int),
        decreases n - start,
    {
        let mut end: usize = start;
        while end < n && !is_command_separator(&tokens[end])
            invariant
                start <= end <= n,
                n == tokens@.len(),
                all == texts(tokens@),
                command_end(all, start as int) == command_end(all, end as int),
            decreases n - end,
        {
            end += 1;
        }
        let ghost had = commands@;
        let command = copy_range(&tokens, start, end);
        commands.push(command);
        proof {
            assert(command_words(commands@) =~= command_words(had).push(texts(command@)));
            assert(command_words(commands@) + commands_from(all, end + 1) =~= command_words(had) + (
            seq![texts(command@)] + commands_from(all, end + 1)));
        }
        if end == n {
            start = n;
        } else {
            start = end + 1;
        }
    }
    proof {
        assert(commands_from(all, start as int) =~= Seq::<Seq<Seq<char>>>::empty());
        assert(stated =~= command_words(commands@));
    }
}

/// Computes [`commands_in`].
fn commands_of_lines(lines: &[String]) -> (out: Vec<Vec<String>>)
    ensures
        command_words(out@) == commands_in(texts(lines@)),
{
    let ghost all = texts(lines@);
    let mut out: Vec<Vec<String>> = Vec::new();
    let mut i: usize = 0;
    proof {
        assert(command_words(out@) =~= Seq::<Seq<Seq<char>>>::empty());
    }
    while i < lines.len()
        invariant
            i <= lines@.len(),
            all == texts(lines@),
            command_words(out@) == commands_in(all.take(i as int)),
        decreases lines@.len() - i,
    {
        proof {
            assert(all.take(i + 1).drop_last() =~= all.take(i as int));
        }
        add_commands(&mut out, &lines[i]);
        i += 1;
    }
    proof {
        assert(all.take(all.len() as int) =~= all);
    }
    out
}

// ---------------------------------------------------------------------------
// Aliases
// ---------------------------------------------------------------------------
/// An alias: its name and the words it stands for.
pub struct Alias {
    pub name: String,
    pub words: Vec<String>,
}

/// The alias that a line of the shell's alias list defines. The word `alias`
/// in front is optional. A definition is `name=value`, or the two words `name`
/// and `value`.
pub open spec fn alias_in(line: Seq<char>) -> Option<(Seq<char>, Seq<Seq<char>>)> {
    let all = words(line);
    let at: int = if all.len() > 0 && all[0] == "alias"@ {
        1
    } else {
        0
    };
    if at >= all.len() {
        None
    } else {
        let definition = all[at];
        let eq = index_from(definition, '=', 0);
        if eq < definition.len() {
            if eq == 0 {
                None
            } else {
                Some((definition.take(eq), words(definition.skip(eq + 1))))
            }
        } else if at + 1 < all.len() {
            Some((definition, words(all[at + 1])))
        } else {
            None
        }
    }
}

/// An alias as its name and words.
pub open spec fn alias_views(list: Seq<Alias>) -> Seq<(Seq<char>, Seq<Seq<char>>)> {
    Seq::new(list.len(), |i: int| (list[i].name@, texts(list[i].words@)))
}

/// The aliases that lines define.
pub open spec fn aliases_in(lines: Seq<Seq<char>>) -> Seq<(Seq<char>, Seq<Seq<char>>)>
    decreases lines.len(),
{
    if lines.len() == 0 {
        Seq::empty()
    } else {
        match alias_in(lines.last()) {
            Some(alias) => aliases_in(lines.drop_last()).push(alias),
            None => aliases_in(lines.drop_last()),
        }
    }
}

fn parse_alias(line: &str) -> (alias: Option<Alias>)
    ensures
        match alias {
            Some(alias) => alias_in(line@) == Some((alias.name@, texts(alias.words@))),
            None => alias_in(line@) is None,
        },
{
    let (all, _) = tokenize(line);
    proof {
        assert(forall|i: int| 0 <= i < all@.len() ==> #[trigger] texts(all@)[i] == all@[i]@);
    }
    let at: usize = if all.len() > 0 && same(&all[0], "alias") {
        1
    } else {
        0
    };
    if at >= all.len() {
        return None;
    }
    let definition = chars_of(&all[at]);
    let n = definition.len();
    let eq = index_of(&definition, '=', 0);
    if eq < n {
        if eq == 0 {
            return None;
        }
        let name = text_range(&definition, 0, eq);
        let value = text_range(&definition, eq + 1, n);
        proof {
            assert(definition@.take(eq as int) =~= definition@.subrange(0, eq as int));
            assert(definition@.skip(eq + 1) =~= definition@.subrange(eq + 1, n as int));
        }
        let (words, _) = tokenize(&value);
        Some(Alias { name, words })
    } else if at + 1 < all.len() {
        let (words, _) = tokenize(&all[at + 1]);
        Some(Alias { name: all[at].clone(), words })
    } else {
        None
    }
}

/// The aliases in the shell's alias list.
pub fn parse_alias_map(raw: &str) -> (aliases: Vec<Alias>)
    ensures
        alias_views(aliases@) == aliases_in(lines_of(raw@)),
{
    let all = lines(raw);
    let ghost list = texts(all@);
    let mut out: Vec<Alias> = Vec::new();
    let mut i: usize = 0;
    proof {
        assert(alias_views(out@) =~= Seq::<(Seq<char>, Seq<Seq<char>>)>::empty());
    }
    while i < all.len()
        invariant
            i <= all@.len(),
            list == texts(all@),
            alias_views(out@) == aliases_in(list.take(i as int)),
        decreases all@.len() - i,
    {
        proof {
            assert(list.take(i + 1).drop_last() =~= list.take(i as int));
        }
        if let Some(alias) = parse_alias(&all[i]) {
            let ghost had = out@;
            let ghost added = (alias.name@, texts(alias.words@));
            out.push(alias);
            proof {
                assert(alias_views(out@) =~= alias_views(had).push(added));
            }
        }
        i += 1;
    }
    proof {
        assert(list.take(list.len() as int) =~= list);
    }
    out
}

/// The words that the first alias of a name stands for.
pub open spec fn alias_named(
    aliases: Seq<(Seq<char>, Seq<Seq<char>>)>,
    name: Seq<char>,
    i: int,
) -> Option<Seq<Seq<char>>>
    decreases aliases.len() - i,
{
    if i < 0 || i >= aliases.len() {
        None
    } else if aliases[i].0 == name {
        Some(aliases[i].1)
    } else {
        alias_named(aliases, name, i + 1)
    }
}

/// A command with the alias in front written out, once.
pub open spec fn alias_expanded(
    command: Seq<Seq<char>>,
    aliases: Seq<(Seq<char>, Seq<Seq<char>>)>,
) -> Seq<Seq<char>> {
    if command.len() == 0 {
        command
    } else {
        match alias_named(aliases, command[0], 0) {
            Some(words) => words + command.skip(1),
            None => command,
        }
    }
}

/// Computes [`alias_expanded`].
pub fn expand_alias_tokens_with(command: &mut Vec<String>, aliases: &[Alias])
    ensures
        texts(final(command)@) == alias_expanded(texts(old(command)@), alias_views(aliases@)),
{
    if command.len() == 0 {
        return;
    }
    let ghost views = alias_views(aliases@);
    let ghost name = command@[0]@;
    let ghost had = texts(command@);
    let mut i: usize = 0;
    while i < aliases.len()
        invariant
            i <= aliases@.len(),
            views == alias_views(aliases@),
            command@.len() > 0,
            name == command@[0]@,
            had == texts(command@),
            alias_named(views, name, 0) == alias_named(views, name, i as int),
            texts(old(command)@) == had,
        decreases aliases@.len() - i,
    {
        if same(&aliases[i].name, &command[0]) {
            let mut out = copy_texts(&aliases[i].words);
            let rest = copy_range(command, 1, command.len());
            let ghost head = texts(out@);
            let mut k: usize = 0;
            proof {
                assert(head + texts(rest@).take(0) =~= head);
            }
            while k < rest.len()
                invariant
                    k <= rest@.len(),
                    texts(out@) == head + texts(rest@).take(k as int),
                decreases rest@.len() - k,
            {
                let ghost before = out@;
                out.push(rest[k].clone());
                k += 1;
                proof {
                    assert(texts(out@) =~= texts(before).push(rest@[k - 1]@));
                    assert(texts(rest@).take(k as int) =~= texts(rest@).take(k - 1).push(
                        rest@[k - 1]@,
                    ));
                    assert(texts(out@) =~= head + texts(rest@).take(k as int));
                }
            }
            proof {
                assert(texts(rest@).take(rest@.len() as int) =~= texts(rest@));
                assert(texts(rest@) =~= had.skip(1));
                assert(head =~= views[i as int].1);
                assert(had[0] == name);
            }
            *command = out;
            return;
        }
        i += 1;
    }
    proof {
        assert(had[0] == name);
    }
}

// ---------------------------------------------------------------------------
// The index of a spec
// ---------------------------------------------------------------------------
/// The command that a word names: what follows its last slash.
pub open spec fn local_name(token: Seq<char>) -> Seq<char> {
    token.skip(base_at(token, token.len() as int))
}

/// Computes [`local_name`].
pub fn local_spec_name(token: &str) -> (name: String)
    ensures
        name@ == local_name(token@),
{
    let s = chars_of(token);
    let n = s.len();
    let mut at: usize = n;
    while at > 0 && s[at - 1] != '/'
        invariant
            at <= n,
            n == s@.len(),
            s@ == token@,
            base_at(s@, n as int) == base_at(s@, at as int),
        decreases at,
    {
        at -= 1;
    }
    proof {
        assert(s@.skip(at as int) =~= s@.subrange(at as int, n as int));
    }
    text_range(&s, at, n)
}

/// Whether a word can lead to a spec: its name, or a path that ends in it.
pub open spec fn is_spec_word(token: Seq<char>, root: Seq<char>) -> bool {
    token == root || local_name(token) == root
}

/// Computes [`is_spec_word`].
pub fn names_spec(token: &str, root_name: &str) -> (yes: bool)
    ensures
        yes == is_spec_word(token@, root_name@),
{
    same(token, root_name) || same(&local_spec_name(token), root_name)
}

/// The values filed under a spec; empty ones are left out.
pub open spec fn filed_under(
    values: Seq<(SlotView, Seq<char>)>,
    root: Seq<char>,
) -> Seq<(SlotView, Seq<char>)>
    decreases values.len(),
{
    if values.len() == 0 {
        Seq::empty()
    } else if values.last().0.root != root || values.last().1.len() == 0 {
        filed_under(values.drop_last(), root)
    } else {
        filed_under(values.drop_last(), root).push(values.last())
    }
}

/// What a command files under a spec. A command that does not mention the spec
/// files nothing; a wrapper such as `sudo` reaches it through its own spec.
#[verifier::opaque]
pub open spec fn command_values(
    answers: SpecAnswers,
    command: Seq<Seq<char>>,
    root: Seq<char>,
) -> Walked<Seq<(SlotView, Seq<char>)>> {
    if !exists|i: int| 0 <= i < command.len() && is_spec_word(#[trigger] command[i], root) {
        Walked::Done(Seq::empty())
    } else {
        match spec_answer(answers.specs@, local_name(command[0]), 0) {
            None => Walked::Needs(NeedView::Spec(local_name(command[0]))),
            Some(None) => Walked::Done(Seq::empty()),
            Some(Some(spec)) => match trace_of(answers, spec, command, command.len() as int) {
                Walked::Needs(need) => Walked::Needs(need),
                Walked::Done(trace) => Walked::Done(filed_under(trace.values, root)),
            },
        }
    }
}

/// What commands file under a spec, in order.
pub open spec fn index_of_commands(
    answers: SpecAnswers,
    aliases: Seq<(Seq<char>, Seq<Seq<char>>)>,
    commands: Seq<Seq<Seq<char>>>,
    root: Seq<char>,
) -> Walked<Seq<(SlotView, Seq<char>)>>
    decreases commands.len(),
{
    if commands.len() == 0 {
        Walked::Done(Seq::empty())
    } else {
        match index_of_commands(answers, aliases, commands.drop_last(), root) {
            Walked::Needs(need) => Walked::Needs(need),
            Walked::Done(had) => match command_values(
                answers,
                alias_expanded(commands.last(), aliases),
                root,
            ) {
                Walked::Needs(need) => Walked::Needs(need),
                Walked::Done(more) => Walked::Done(had + more),
            },
        }
    }
}

proof fn lemma_index_stops(
    answers: SpecAnswers,
    aliases: Seq<(Seq<char>, Seq<Seq<char>>)>,
    commands: Seq<Seq<Seq<char>>>,
    root: Seq<char>,
    n: int,
    need: NeedView,
)
    requires
        0 <= n <= commands.len(),
        index_of_commands(answers, aliases, commands.take(n), root) == Walked::<
            Seq<(SlotView, Seq<char>)>,
        >::Needs(need),
    ensures
        index_of_commands(answers, aliases, commands, root) == Walked::<
            Seq<(SlotView, Seq<char>)>,
        >::Needs(need),
    decreases commands.len() - n,
{
    if n == commands.len() {
        assert(commands.take(n) =~= commands);
    } else {
        assert(commands.take(n + 1).drop_last() =~= commands.take(n));
        lemma_index_stops(answers, aliases, commands, root, n + 1, need);
    }
}

fn file_under(index: &mut Vec<(ArgSlot, String)>, values: Vec<(ArgSlot, String)>, root_name: &str)
    ensures
        filed(final(index)@) == filed(old(index)@) + filed_under(filed(values@), root_name@),
{
    let ghost all = filed(values@);
    let ghost start = filed(index@);
    let mut i: usize = 0;
    proof {
        assert(start + Seq::<(SlotView, Seq<char>)>::empty() =~= start);
    }
    while i < values.len()
        invariant
            i <= values@.len(),
            all == filed(values@),
            filed(index@) == start + filed_under(all.take(i as int), root_name@),
        decreases values@.len() - i,
    {
        proof {
            assert(all.take(i + 1).drop_last() =~= all.take(i as int));
        }
        let (slot, value) = &values[i];
        if same(&slot.root, root_name) && !value.as_str().is_empty() {
            let ghost had = index@;
            index.push((copy_slot(slot), value.clone()));
            proof {
                assert(filed(index@) =~= filed(had).push((slot@, value@)));
                assert(filed(index@) =~= start + filed_under(all.take(i + 1), root_name@));
            }
        }
        i += 1;
    }
    proof {
        assert(all.take(all.len() as int) =~= all);
    }
}

/// A copy of a slot.
pub fn copy_slot(slot: &ArgSlot) -> (copy: ArgSlot)
    ensures
        copy@ == slot@,
{
    let copy = ArgSlot {
        root: slot.root.clone(),
        path: copy_texts(&slot.path),
        option: slot.option.clone(),
        index: slot.index,
    };
    proof {
        assert(copy@ =~= slot@);
    }
    copy
}

/// Files what a command holds under a spec.
fn index_command(
    index: &mut Vec<(ArgSlot, String)>,
    answers: &SpecAnswers,
    command: &[String],
    root_name: &str,
) -> (out: Result<(), Need>)
    ensures
        match out {
            Ok(()) => command_values(*answers, texts(command@), root_name@) matches Walked::Done(
                more,
            ) && filed(final(index)@) == filed(old(index)@) + more,
            Err(need) => command_values(*answers, texts(command@), root_name@) == Walked::<
                Seq<(SlotView, Seq<char>)>,
            >::Needs(need@),
        },
{
    reveal(command_values);
    let ghost all = texts(command@);
    let mut mentioned = false;
    let mut i: usize = 0;
    while i < command.len()
        invariant
            i <= command@.len(),
            all == texts(command@),
            mentioned == exists|k: int| 0 <= k < i && is_spec_word(#[trigger] all[k], root_name@),
        decreases command@.len() - i,
    {
        let names = names_spec(&command[i], root_name);
        proof {
            assert(all[i as int] == command@[i as int]@);
        }
        if names {
            mentioned = true;
            proof {
                assert(is_spec_word(all[i as int], root_name@));
            }
        }
        i += 1;
    }
    proof {
        assert(filed(index@) + Seq::<(SlotView, Seq<char>)>::empty() =~= filed(index@));
    }
    if !mentioned {
        return Ok(());
    }
    let name = local_spec_name(&command[0]);
    match answers.answer(&name) {
        None => Err(Need::Spec(name)),
        Some(None) => Ok(()),
        Some(Some(root)) => match annotate_command(answers, root, command, command.len()) {
            Err(need) => Err(need),
            Ok(trace) => {
                file_under(index, trace.values, root_name);
                Ok(())
            },
        },
    }
}

/// What history lines file under a spec.
pub open spec fn index_of_lines(
    answers: SpecAnswers,
    aliases: Seq<(Seq<char>, Seq<Seq<char>>)>,
    lines: Seq<Seq<char>>,
    root: Seq<char>,
) -> Walked<Seq<(SlotView, Seq<char>)>> {
    index_of_commands(answers, aliases, commands_in(lines), root)
}

/// Computes [`index_of_lines`].
pub fn build_index(
    lines: &[String],
    answers: &SpecAnswers,
    root_name: &str,
    aliases: &[Alias],
) -> (out: Result<Vec<(ArgSlot, String)>, Need>)
    ensures
        match out {
            Ok(index) => index_of_lines(
                *answers,
                alias_views(aliases@),
                texts(lines@),
                root_name@,
            ) == Walked::Done(filed(index@)),
            Err(need) => index_of_lines(
                *answers,
                alias_views(aliases@),
                texts(lines@),
                root_name@,
            ) == Walked::<Seq<(SlotView, Seq<char>)>>::Needs(need@),
        },
{
    let commands = commands_of_lines(lines);
    let ghost all = command_words(commands@);
    let ghost known = alias_views(aliases@);
    let mut index: Vec<(ArgSlot, String)> = Vec::new();
    let mut i: usize = 0;
    proof {
        assert(filed(index@) =~= Seq::<(SlotView, Seq<char>)>::empty());
    }
    while i < commands.len()
        invariant
            i <= commands@.len(),
            all == command_words(commands@),
            all == commands_in(texts(lines@)),
            known == alias_views(aliases@),
            index_of_commands(*answers, known, all.take(i as int), root_name@) == Walked::Done(
                filed(index@),
            ),
        decreases commands@.len() - i,
    {
        proof {
            assert(all.take(i + 1).drop_last() =~= all.take(i as int));
            assert(all.take(i + 1).last() == texts(commands@[i as int]@));
        }
        let mut command = copy_texts(&commands[i]);
        expand_alias_tokens_with(&mut command, aliases);
        if let Err(need) = index_command(&mut index, answers, &command, root_name) {
            proof {
                lemma_index_stops(*answers, known, all, root_name@, i + 1, need@);
            }
            return Err(need);
        }
        i += 1;
    }
    proof {
        assert(all.take(all.len() as int) =~= all);
    }
    Ok(index)
}

// ---------------------------------------------------------------------------
// The store
// ---------------------------------------------------------------------------
/// Shell history as it was loaded, with the index of each spec that was asked
/// for. An index is built once and kept until the history is loaded again.
pub struct HistoryStore {
    lines: Arc<Vec<String>>,
    index: Vec<(String, Vec<(ArgSlot, String)>)>,
}

/// History lines and the indexes built so far.
#[verifier::ext_equal]
pub struct StoreView {
    pub lines: Seq<Seq<char>>,
    pub index: Seq<(Seq<char>, Seq<(SlotView, Seq<char>)>)>,
}

/// Indexes with the specs they belong to.
pub open spec fn index_views(index: Seq<(String, Vec<(ArgSlot, String)>)>) -> Seq<
    (Seq<char>, Seq<(SlotView, Seq<char>)>),
> {
    Seq::new(index.len(), |i: int| (index[i].0@, filed(index[i].1@)))
}

impl View for HistoryStore {
    type V = StoreView;

    closed spec fn view(&self) -> StoreView {
        StoreView { lines: texts(self.lines@), index: index_views(self.index@) }
    }
}

/// Where the index of a spec is kept.
pub open spec fn index_place(
    index: Seq<(Seq<char>, Seq<(SlotView, Seq<char>)>)>,
    root: Seq<char>,
    i: int,
) -> Option<int>
    decreases index.len() - i,
{
    if i < 0 || i >= index.len() {
        None
    } else if index[i].0 == root {
        Some(i)
    } else {
        index_place(index, root, i + 1)
    }
}

/// The index of a spec, and the store behind it: one that was built before is
/// used again.
pub open spec fn indexed(
    store: StoreView,
    answers: SpecAnswers,
    aliases: Seq<(Seq<char>, Seq<Seq<char>>)>,
    root: Seq<char>,
) -> (StoreView, Walked<Seq<(SlotView, Seq<char>)>>) {
    match index_place(store.index, root, 0) {
        Some(i) => (store, Walked::Done(store.index[i].1)),
        None => match index_of_lines(answers, aliases, store.lines, root) {
            Walked::Done(built) => (
                StoreView { index: store.index.push((root, built)), ..store },
                Walked::Done(built),
            ),
            Walked::Needs(need) => (store, Walked::Needs(need)),
        },
    }
}

/// The values of a slot, in the order of history.
pub open spec fn slot_values(index: Seq<(SlotView, Seq<char>)>, slot: SlotView) -> Seq<Seq<char>>
    decreases index.len(),
{
    if index.len() == 0 {
        Seq::empty()
    } else if index.last().0 == slot {
        slot_values(index.drop_last(), slot).push(index.last().1)
    } else {
        slot_values(index.drop_last(), slot)
    }
}

/// Values added from the last to the first, each once.
pub open spec fn with_recent(out: Seq<Seq<char>>, values: Seq<Seq<char>>) -> Seq<Seq<char>>
    decreases values.len(),
{
    if values.len() == 0 {
        out
    } else if out.contains(values.last()) {
        with_recent(out, values.drop_last())
    } else {
        with_recent(out.push(values.last()), values.drop_last())
    }
}

/// The values offered for slots, and the store behind it.
pub open spec fn offered(
    store: StoreView,
    answers: SpecAnswers,
    aliases: Seq<(Seq<char>, Seq<Seq<char>>)>,
    slots: Seq<SlotView>,
) -> (StoreView, Walked<Seq<Seq<char>>>)
    decreases slots.len(),
{
    if slots.len() == 0 {
        (store, Walked::Done(Seq::empty()))
    } else {
        let slot = slots.last();
        match offered(store, answers, aliases, slots.drop_last()) {
            (before, Walked::Needs(need)) => (before, Walked::Needs(need)),
            (before, Walked::Done(out)) => if slot.root.len() == 0 {
                (before, Walked::Done(out))
            } else {
                match indexed(before, answers, aliases, slot.root) {
                    (after, Walked::Needs(need)) => (after, Walked::Needs(need)),
                    (after, Walked::Done(index)) => (
                        after,
                        Walked::Done(with_recent(out, slot_values(index, slot))),
                    ),
                }
            },
        }
    }
}

proof fn lemma_offer_stops(
    store: StoreView,
    answers: SpecAnswers,
    aliases: Seq<(Seq<char>, Seq<Seq<char>>)>,
    slots: Seq<SlotView>,
    n: int,
)
    requires
        0 <= n <= slots.len(),
        offered(store, answers, aliases, slots.take(n)).1 is Needs,
    ensures
        offered(store, answers, aliases, slots) == offered(store, answers, aliases, slots.take(n)),
    decreases slots.len() - n,
{
    if n == slots.len() {
        assert(slots.take(n) =~= slots);
    } else {
        assert(slots.take(n + 1).drop_last() =~= slots.take(n));
        lemma_offer_stops(store, answers, aliases, slots, n + 1);
    }
}

/// Adds the values of a slot, most recent first, each once.
fn add_recent(out: &mut Vec<String>, index: &[(ArgSlot, String)], slot: &ArgSlot)
    ensures
        texts(final(out)@) == with_recent(texts(old(out)@), slot_values(filed(index@), slot@)),
{
    let ghost all = filed(index@);
    let ghost stated = with_recent(texts(out@), slot_values(all, slot@));
    let mut i: usize = index.len();
    proof {
        assert(all.take(all.len() as int) =~= all);
    }
    while i > 0
        invariant
            i <= index@.len(),
            all == filed(index@),
            stated == with_recent(texts(out@), slot_values(all.take(i as int), slot@)),
        decreases i,
    {
        i -= 1;
        let ghost values = slot_values(all.take(i + 1), slot@);
        proof {
            assert(all.take(i + 1).drop_last() =~= all.take(i as int));
            assert(all.take(i + 1).last() == all[i as int]);
            if all[i as int].0 == slot@ {
                assert(values.drop_last() =~= slot_values(all.take(i as int), slot@));
                assert(values.last() == all[i as int].1);
            }
        }
        if same_slot(&index[i].0, slot) {
            let known = holds_text(out, &index[i].1);
            if !known {
                let ghost had = out@;
                out.push(index[i].1.clone());
                proof {
                    assert(texts(out@) =~= texts(had).push(index@[i as int].1@));
                }
            }
        }
    }
}

impl HistoryStore {
    /// A store of history lines, nothing indexed yet.
    pub fn new(lines: Arc<Vec<String>>) -> (store: HistoryStore)
        ensures
            store@ == (StoreView { lines: texts(lines@), index: Seq::empty() }),
    {
        let store = HistoryStore { lines, index: Vec::new() };
        proof {
            assert(index_views(store.index@) =~= Seq::<
                (Seq<char>, Seq<(SlotView, Seq<char>)>),
            >::empty());
        }
        store
    }

    /// A store of history lines, nothing indexed yet.
    pub fn from_lines(lines: Vec<String>) -> (store: HistoryStore)
        ensures
            store@ == (StoreView { lines: texts(lines@), index: Seq::empty() }),
    {
        HistoryStore::new(Arc::new(lines))
    }

    /// The history lines.
    pub fn lines(&self) -> (lines: &Arc<Vec<String>>)
        ensures
            texts((*lines)@) == self@.lines,
    {
        &self.lines
    }

    /// The place of a spec's index, which is built where it is missing.
    fn index_for(&mut self, answers: &SpecAnswers, root_name: &str, aliases: &[Alias]) -> (out:
        Result<usize, Need>)
        ensures
            final(self)@ == indexed(old(self)@, *answers, alias_views(aliases@), root_name@).0,
            match out {
                Ok(i) => i < final(self).index@.len() && indexed(
                    old(self)@,
                    *answers,
                    alias_views(aliases@),
                    root_name@,
                ).1 == Walked::Done(filed(final(self).index@[i as int].1@)),
                Err(need) => indexed(
                    old(self)@,
                    *answers,
                    alias_views(aliases@),
                    root_name@,
                ).1 == Walked::<Seq<(SlotView, Seq<char>)>>::Needs(need@),
            },
    {
        let ghost views = index_views(self.index@);
        let mut i: usize = 0;
        while i < self.index.len()
            invariant
                i <= self.index@.len(),
                *self == *old(self),
                views == index_views(self.index@),
                index_place(views, root_name@, 0) == index_place(views, root_name@, i as int),
            decreases self.index@.len() - i,
        {
            if same(&self.index[i].0, root_name) {
                return Ok(i);
            }
            i += 1;
        }
        match build_index(&self.lines, answers, root_name, aliases) {
            Err(need) => Err(need),
            Ok(built) => {
                let ghost list = filed(built@);
                self.index.push((root_name.to_owned(), built));
                proof {
                    assert(index_views(self.index@) =~= views.push((root_name@, list)));
                }
                Ok(i)
            },
        }
    }

    /// The values that history put into any of the slots, most recent first
    /// within a slot, each once.
    pub fn arg_values(&mut self, answers: &SpecAnswers, aliases: &[Alias], slots: &[ArgSlot]) -> (
    out: Result<Vec<String>, Need>)
        ensures
            final(self)@ == offered(
                old(self)@,
                *answers,
                alias_views(aliases@),
                slot_views(slots@),
            ).0,
            match out {
                Ok(values) => offered(
                    old(self)@,
                    *answers,
                    alias_views(aliases@),
                    slot_views(slots@),
                ).1 == Walked::Done(texts(values@)),
                Err(need) => offered(
                    old(self)@,
                    *answers,
                    alias_views(aliases@),
                    slot_views(slots@),
                ).1 == Walked::<Seq<Seq<char>>>::Needs(need@),
            },
    {
        let ghost known = alias_views(aliases@);
        let ghost all = slot_views(slots@);
        let ghost start = self@;
        let mut out: Vec<String> = Vec::new();
        let mut i: usize = 0;
        proof {
            assert(texts(out@) =~= Seq::<Seq<char>>::empty());
        }
        while i < slots.len()
            invariant
                i <= slots@.len(),
                start == old(self)@,
                known == alias_views(aliases@),
                all == slot_views(slots@),
                offered(start, *answers, known, all.take(i as int)) == (
                    self@,
                    Walked::Done(texts(out@)),
                ),
            decreases slots@.len() - i,
        {
            let slot = &slots[i];
            proof {
                assert(all.take(i + 1).drop_last() =~= all.take(i as int));
                assert(all.take(i + 1).last() == slot@);
            }
            if !slot.root.as_str().is_empty() {
                match self.index_for(answers, &slot.root, aliases) {
                    Err(need) => {
                        proof {
                            lemma_offer_stops(start, *answers, known, all, i + 1);
                        }
                        return Err(need);
                    },
                    Ok(place) => {
                        add_recent(&mut out, &self.index[place].1, slot);
                    },
                }
            }
            i += 1;
        }
        proof {
            assert(all.take(all.len() as int) =~= all);
        }
        Ok(out)
    }
}

// ---------------------------------------------------------------------------
// Laws
// ---------------------------------------------------------------------------
/// Whether no value occurs twice.
pub open spec fn all_distinct(values: Seq<Seq<char>>) -> bool {
    forall|i: int, j: int| 0 <= i < j < values.len() ==> values[i] != values[j]
}

proof fn lemma_recent_values_distinct(out: Seq<Seq<char>>, values: Seq<Seq<char>>)
    requires
        all_distinct(out),
    ensures
        all_distinct(with_recent(out, values)),
    decreases values.len(),
{
    if values.len() > 0 {
        if out.contains(values.last()) {
            lemma_recent_values_distinct(out, values.drop_last());
        } else {
            lemma_recent_values_distinct(out.push(values.last()), values.drop_last());
        }
    }
}

/// No value is offered twice, even where several slots hold it.
pub proof fn law_history_values_are_distinct(
    store: StoreView,
    answers: SpecAnswers,
    aliases: Seq<(Seq<char>, Seq<Seq<char>>)>,
    slots: Seq<SlotView>,
)
    ensures
        offered(store, answers, aliases, slots).1 matches Walked::Done(values) ==> all_distinct(
            values,
        ),
    decreases slots.len(),
{
    if slots.len() > 0 {
        law_history_values_are_distinct(store, answers, aliases, slots.drop_last());
        let slot = slots.last();
        if let (before, Walked::Done(out)) = offered(store, answers, aliases, slots.drop_last()) {
            if slot.root.len() > 0 {
                if let (after, Walked::Done(index)) = indexed(before, answers, aliases, slot.root) {
                    lemma_recent_values_distinct(out, slot_values(index, slot));
                }
            }
        }
    }
}

proof fn lemma_recent_values_keep(out: Seq<Seq<char>>, values: Seq<Seq<char>>, value: Seq<char>)
    ensures
        with_recent(out, values).contains(value) <==> out.contains(value) || values.contains(value),
    decreases values.len(),
{
    if values.len() > 0 {
        let last = values.last();
        let rest = values.drop_last();
        assert(values.contains(value) <==> rest.contains(value) || last == value) by {
            if values.contains(value) {
                let k = values.index_of(value);
                if k < rest.len() {
                    assert(rest[k] == value);
                }
            }
            if rest.contains(value) {
                let k = rest.index_of(value);
                assert(values[k] == value);
            }
            if last == value {
                assert(values[values.len() - 1] == value);
            }
        }
        if out.contains(last) {
            lemma_recent_values_keep(out, rest, value);
        } else {
            lemma_recent_values_keep(out.push(last), rest, value);
            assert(out.push(last).contains(value) <==> out.contains(value) || last == value) by {
                if out.push(last).contains(value) {
                    let k = out.push(last).index_of(value);
                    if k < out.len() {
                        assert(out[k] == value);
                    }
                }
                if out.contains(value) {
                    let k = out.index_of(value);
                    assert(out.push(last)[k] == value);
                }
                if last == value {
                    assert(out.push(last)[out.len() as int] == value);
                }
            }
        }
    } else {
        assert(!values.contains(value));
    }
}

proof fn lemma_slot_values(index: Seq<(SlotView, Seq<char>)>, slot: SlotView, value: Seq<char>)
    ensures
        slot_values(index, slot).contains(value) <==> index.contains((slot, value)),
    decreases index.len(),
{
    if index.len() == 0 {
        assert(!slot_values(index, slot).contains(value));
        assert(!index.contains((slot, value)));
    } else {
        let rest = index.drop_last();
        lemma_slot_values(rest, slot, value);
        let had = slot_values(rest, slot);
        assert(index.contains((slot, value)) <==> rest.contains((slot, value)) || index.last() == (
            slot,
            value,
        )) by {
            if index.contains((slot, value)) {
                let k = index.index_of((slot, value));
                if k < rest.len() {
                    assert(rest[k] == (slot, value));
                }
            }
            if rest.contains((slot, value)) {
                let k = rest.index_of((slot, value));
                assert(index[k] == (slot, value));
            }
            if index.last() == (slot, value) {
                assert(index[index.len() - 1] == (slot, value));
            }
        }
        if index.last().0 == slot {
            let more = had.push(index.last().1);
            assert(more.contains(value) <==> had.contains(value) || index.last().1 == value) by {
                if more.contains(value) {
                    let k = more.index_of(value);
                    if k < had.len() {
                        assert(had[k] == value);
                    }
                }
                if had.contains(value) {
                    let k = had.index_of(value);
                    assert(more[k] == value);
                }
                if index.last().1 == value {
                    assert(more[had.len() as int] == value);
                }
            }
        }
    }
}

/// A slot offers exactly what the index of its spec holds for it.
pub proof fn law_slots_offer_their_values(
    store: StoreView,
    answers: SpecAnswers,
    aliases: Seq<(Seq<char>, Seq<Seq<char>>)>,
    slot: SlotView,
    value: Seq<char>,
)
    requires
        slot.root.len() > 0,
    ensures
        match (
            offered(store, answers, aliases, seq![slot]).1,
            indexed(store, answers, aliases, slot.root).1,
        ) {
            (Walked::Done(values), Walked::Done(index)) => values.contains(value)
                <==> index.contains((slot, value)),
            (Walked::Needs(a), Walked::Needs(b)) => a == b,
            _ => false,
        },
{
    let slots = seq![slot];
    assert(slots.drop_last() =~= Seq::<SlotView>::empty());
    assert(offered(store, answers, aliases, slots.drop_last()) == (
        store,
        Walked::Done(Seq::<Seq<char>>::empty()),
    ));
    if let Walked::Done(index) = indexed(store, answers, aliases, slot.root).1 {
        lemma_recent_values_keep(Seq::empty(), slot_values(index, slot), value);
        lemma_slot_values(index, slot, value);
        assert(!Seq::<Seq<char>>::empty().contains(value));
    }
}

/// What was indexed once answers the same afterwards, whatever else changes.
pub proof fn law_indexes_are_kept(
    store: StoreView,
    answers: SpecAnswers,
    aliases: Seq<(Seq<char>, Seq<Seq<char>>)>,
    later: SpecAnswers,
    later_aliases: Seq<(Seq<char>, Seq<Seq<char>>)>,
    root: Seq<char>,
)
    ensures
        ({
            let (after, out) = indexed(store, answers, aliases, root);
            out is Done ==> indexed(after, later, later_aliases, root) == (after, out)
        }),
{
    let (after, out) = indexed(store, answers, aliases, root);
    if out is Done && index_place(store.index, root, 0) is None {
        lemma_pushed_place(store.index, root, after.index.last(), 0);
    } else if out is Done {
        lemma_place_bounds(store.index, root, 0);
    }
}

proof fn lemma_place_bounds(
    index: Seq<(Seq<char>, Seq<(SlotView, Seq<char>)>)>,
    root: Seq<char>,
    i: int,
)
    requires
        0 <= i,
    ensures
        index_place(index, root, i) matches Some(k) ==> i <= k < index.len(),
    decreases index.len() - i,
{
    if i < index.len() {
        lemma_place_bounds(index, root, i + 1);
    }
}

proof fn lemma_pushed_place(
    index: Seq<(Seq<char>, Seq<(SlotView, Seq<char>)>)>,
    root: Seq<char>,
    more: (Seq<char>, Seq<(SlotView, Seq<char>)>),
    i: int,
)
    requires
        0 <= i <= index.len(),
        more.0 == root,
        index_place(index, root, i) is None,
    ensures
        index_place(index.push(more), root, i) == Some(index.len() as int),
    decreases index.len() - i,
{
    if i < index.len() {
        lemma_pushed_place(index, root, more, i + 1);
    }
}

} // verus!
