//! When a generator runs again, and for how long.
use vstd::prelude::*;

use crate::ir::GeneratorTrigger;
use crate::json::{collect_texts, item_views, texts_in, Json};
use crate::query::{units, utf16_units};
use crate::text::{chars_of, opt_text, rfind, rfind_spec, same, text_range, texts};

verus! {

// ---------------------------------------------------------------------------
// Time limits
// ---------------------------------------------------------------------------
/// The time limit of scripts where no setting gives one, in milliseconds.
pub const DEFAULT_SCRIPT_TIMEOUT_MS: i64 = 5000;

/// The pause before a debounced generator runs where its argument gives none,
/// in milliseconds.
pub const DEFAULT_DEBOUNCE_MS: i64 = 200;

/// A value, or zero where there is none.
pub open spec fn or_zero(value: Option<i64>) -> i64 {
    match value {
        Some(value) => value,
        None => 0,
    }
}

/// The larger of two values.
pub open spec fn larger(a: i64, b: i64) -> i64 {
    if a >= b {
        a
    } else {
        b
    }
}

/// The time limit of a script: the largest of the setting, the generator's and
/// the command's, and zero where that is negative.
pub open spec fn script_timeout(default_ms: i64, generator_ms: Option<i64>, command_ms: Option<i64>) -> int {
    let selected = larger(larger(default_ms, or_zero(generator_ms)), or_zero(command_ms));
    if selected < 0 {
        0
    } else {
        selected as int
    }
}

/// Computes [`script_timeout`].
pub fn effective_script_timeout_ms(
    default_timeout_ms: i64,
    generator_timeout_ms: Option<i64>,
    command_timeout_ms: Option<i64>,
) -> (limit: u64)
    ensures
        limit == script_timeout(default_timeout_ms, generator_timeout_ms, command_timeout_ms),
{
    let mut selected: i64 = default_timeout_ms;
    let generator: i64 = match generator_timeout_ms {
        Some(value) => value,
        None => 0,
    };
    if generator > selected {
        selected = generator;
    }
    let command: i64 = match command_timeout_ms {
        Some(value) => value,
        None => 0,
    };
    if command > selected {
        selected = command;
    }
    if selected < 0 {
        0
    } else {
        selected as u64
    }
}

/// A limit in milliseconds as a signed number; one too large for that stands
/// for the default.
pub open spec fn signed_limit(limit: u64) -> i64 {
    if limit <= i64::MAX {
        limit as i64
    } else {
        DEFAULT_SCRIPT_TIMEOUT_MS
    }
}

/// Computes [`signed_limit`].
pub fn limit_as_signed(limit: u64) -> (signed: i64)
    ensures
        signed == signed_limit(limit),
{
    if limit <= i64::MAX as u64 {
        limit as i64
    } else {
        DEFAULT_SCRIPT_TIMEOUT_MS
    }
}

// ---------------------------------------------------------------------------
// Lengths and places in UTF-16
// ---------------------------------------------------------------------------
/// A length as a 32-bit number; -1 where it does not fit.
pub open spec fn small_length(n: nat) -> i32 {
    if n <= i32::MAX {
        n as i32
    } else {
        (-1) as i32
    }
}

fn shorten(n: usize) -> (length: i32)
    ensures
        length == small_length(n as nat),
{
    if n <= i32::MAX as usize {
        n as i32
    } else {
        -1
    }
}

/// The number of UTF-16 code units of a text.
pub fn utf16_len(text: &str) -> (length: usize)
    ensures
        length == units(text@).len(),
{
    utf16_units(text).len()
}

/// The UTF-16 place of the last occurrence of a text, -1 where there is none.
pub open spec fn last_place(haystack: Seq<char>, needle: Seq<char>) -> i32 {
    if needle.len() == 0 {
        small_length(units(haystack).len())
    } else {
        match rfind_spec(haystack, needle) {
            Some(i) => small_length(units(haystack.take(i)).len()),
            None => (-1) as i32,
        }
    }
}

/// Computes [`last_place`].
pub fn last_index(haystack: &str, needle: &str) -> (place: i32)
    ensures
        place == last_place(haystack@, needle@),
{
    if needle.is_empty() {
        return shorten(utf16_len(haystack));
    }
    let s = chars_of(haystack);
    let p = chars_of(needle);
    match rfind(&s, &p) {
        Some(i) => {
            let head = text_range(&s, 0, i);
            proof {
                assert(head@ =~= s@.take(i as int));
            }
            shorten(utf16_len(&head))
        },
        None => -1,
    }
}

// ---------------------------------------------------------------------------
// Rules
// ---------------------------------------------------------------------------
/// The text of a rule: its text, or the first item of its list.
pub open spec fn rule_text(string: Option<Json>) -> Seq<char> {
    match string {
        Some(Json::Text(text)) => text@,
        Some(Json::List(items)) => if items@.len() > 0 {
            match items@[0] {
                Json::Text(text) => text@,
                _ => Seq::empty(),
            }
        } else {
            Seq::empty()
        },
        _ => Seq::empty(),
    }
}

/// Computes [`rule_text`].
pub fn trigger_string(trigger: &GeneratorTrigger) -> (text: String)
    ensures
        text@ == rule_text(trigger.string),
{
    match &trigger.string {
        Some(Json::Text(text)) => text.clone(),
        Some(Json::List(items)) => {
            if items.len() > 0 {
                if let Json::Text(text) = &items[0] {
                    return text.clone();
                }
            }
            String::new()
        },
        _ => String::new(),
    }
}

/// The texts of a rule.
pub open spec fn rule_texts(string: Option<Json>) -> Seq<Seq<char>> {
    match string {
        Some(Json::Text(text)) => seq![text@],
        Some(Json::List(items)) => texts_in(item_views(items@)),
        _ => Seq::empty(),
    }
}

/// The place of a text in a list, from `i` on; -1 where it is not there.
pub open spec fn text_at(list: Seq<Seq<char>>, text: Seq<char>, i: int) -> i32
    decreases list.len() - i,
{
    if i < 0 || i >= list.len() {
        (-1) as i32
    } else if list[i] == text {
        small_length(i as nat)
    } else {
        text_at(list, text, i + 1)
    }
}

/// The place of a term among the texts of a rule; -1 where it is none of them.
pub fn trigger_match_index(trigger: &GeneratorTrigger, search_term: &str) -> (place: i32)
    ensures
        place == text_at(rule_texts(trigger.string), search_term@, 0),
{
    let strings: Vec<String> = match &trigger.string {
        Some(Json::Text(text)) => {
            let mut one: Vec<String> = Vec::new();
            one.push(text.clone());
            one
        },
        Some(Json::List(items)) => collect_texts(items),
        _ => Vec::new(),
    };
    let ghost all = texts(strings@);
    proof {
        assert(all =~= rule_texts(trigger.string));
    }
    let mut i: usize = 0;
    while i < strings.len()
        invariant
            i <= strings@.len(),
            all == texts(strings@),
            all == rule_texts(trigger.string),
            text_at(all, search_term@, 0) == text_at(all, search_term@, i as int),
        decreases strings@.len() - i,
    {
        if same(&strings[i], search_term) {
            return shorten(i);
        }
        i += 1;
    }
    -1
}

/// A length limit: zero where it is absent, negative or too large.
pub open spec fn length_limit(length: Option<i64>) -> int {
    match length {
        Some(length) => if 0 <= length && length <= usize::MAX {
            length as int
        } else {
            0
        },
        None => 0,
    }
}

/// Whether a generator runs again when its term changes from `previous`.
/// `answer` is what the rule's hook says, where it could be asked.
pub open spec fn triggers(
    trigger: Option<GeneratorTrigger>,
    debounce: bool,
    arg_changed: bool,
    search_term: Seq<char>,
    previous: Seq<char>,
    lists_paths: bool,
    answer: Option<bool>,
) -> bool {
    if arg_changed {
        true
    } else {
        match trigger {
            None => if lists_paths {
                search_term != previous
            } else {
                debounce
            },
            Some(trigger) => if trigger.on@ == "function"@ {
                trigger.js_trigger is None || answer != Some(false)
            } else if trigger.on@ == "string"@ {
                let needle = rule_text(trigger.string);
                last_place(search_term, needle) != last_place(previous, needle)
            } else if trigger.on@ == "threshold"@ {
                let limit = length_limit(trigger.length);
                units(search_term).len() > limit && units(previous).len() <= limit
            } else if trigger.on@ == "match"@ {
                text_at(rule_texts(trigger.string), search_term, 0) != text_at(
                    rule_texts(trigger.string),
                    previous,
                    0,
                )
            } else {
                search_term != previous
            },
        }
    }
}

/// A trigger at hand, as a value.
pub open spec fn trigger_value(trigger: Option<&GeneratorTrigger>) -> Option<GeneratorTrigger> {
    match trigger {
        Some(trigger) => Some(*trigger),
        None => None,
    }
}

/// The hook that decides whether a generator runs again: that of a rule of kind
/// `function`, while the argument stays the same.
pub open spec fn deciding_hook(trigger: Option<GeneratorTrigger>, arg_changed: bool) -> Option<
    Seq<char>,
> {
    match trigger {
        Some(trigger) => if !arg_changed && trigger.on@ == "function"@ {
            opt_text(trigger.js_trigger)
        } else {
            None
        },
        None => None,
    }
}

/// Computes [`deciding_hook`].
pub fn trigger_hook(trigger: &Option<GeneratorTrigger>, arg_changed: bool) -> (hook: Option<String>)
    ensures
        opt_text(hook) == deciding_hook(*trigger, arg_changed),
{
    match trigger {
        Some(trigger) => if !arg_changed && same(&trigger.on, "function") {
            trigger.js_trigger.clone()
        } else {
            None
        },
        None => None,
    }
}

/// Where no hook decides, what one answers makes no difference.
pub proof fn law_only_deciding_hooks_count(
    trigger: Option<GeneratorTrigger>,
    debounce: bool,
    arg_changed: bool,
    search_term: Seq<char>,
    previous: Seq<char>,
    lists_paths: bool,
    answer: Option<bool>,
)
    requires
        deciding_hook(trigger, arg_changed) is None,
    ensures
        triggers(trigger, debounce, arg_changed, search_term, previous, lists_paths, answer)
            == triggers(trigger, debounce, arg_changed, search_term, previous, lists_paths, None),
{
}

/// Computes [`triggers`].
pub fn should_trigger(
    trigger: Option<&GeneratorTrigger>,
    debounce: bool,
    arg_changed: bool,
    search_term: &str,
    previous: &str,
    lists_paths: bool,
    answer: Option<bool>,
) -> (runs: bool)
    ensures
        runs == triggers(
            trigger_value(trigger),
            debounce,
            arg_changed,
            search_term@,
            previous@,
            lists_paths,
            answer,
        ),
{
    if arg_changed {
        return true;
    }
    let trigger = match trigger {
        Some(trigger) => trigger,
        None => {
            return if lists_paths {
                !same(search_term, previous)
            } else {
                debounce
            };
        },
    };
    if same(&trigger.on, "function") {
        let refused = match answer {
            Some(answer) => !answer,
            None => false,
        };
        return trigger.js_trigger.is_none() || !refused;
    }
    if same(&trigger.on, "string") {
        let needle = trigger_string(trigger);
        return last_index(search_term, &needle) != last_index(previous, &needle);
    }
    if same(&trigger.on, "threshold") {
        let limit: usize = match trigger.length {
            Some(length) => if length >= 0 && (length as u64) <= usize::MAX as u64 {
                length as usize
            } else {
                0
            },
            None => 0,
        };
        return utf16_len(search_term) > limit && utf16_len(previous) <= limit;
    }
    if same(&trigger.on, "match") {
        return trigger_match_index(trigger, search_term) != trigger_match_index(trigger, previous);
    }
    !same(search_term, previous)
}

/// An unchanged term never runs a generator of an unchanged argument again,
/// but for hooks and for debounced generators without a rule.
pub proof fn law_unchanged_terms_stay(
    trigger: Option<GeneratorTrigger>,
    debounce: bool,
    term: Seq<char>,
    lists_paths: bool,
    answer: Option<bool>,
)
    requires
        trigger is None ==> lists_paths || !debounce,
        trigger matches Some(rule) ==> rule.on@ != "function"@,
    ensures
        !triggers(trigger, debounce, false, term, term, lists_paths, answer),
{
}

/// A time limit is never below the setting, nor below zero.
pub proof fn law_limits_only_grow(default_ms: i64, generator_ms: Option<i64>, command_ms: Option<i64>)
    ensures
        script_timeout(default_ms, generator_ms, command_ms) >= 0,
        script_timeout(default_ms, generator_ms, command_ms) >= default_ms,
        generator_ms matches Some(ms) ==> script_timeout(default_ms, generator_ms, command_ms) >= ms,
        command_ms matches Some(ms) ==> script_timeout(default_ms, generator_ms, command_ms) >= ms,
{
}

} // verus!
