//! What hooks return: rows, commands, and requests to run commands.
use vstd::prelude::*;

use crate::json::{collect_texts, item_views, lemma_list_view, or_empty, texts_in, Json, JsonView};
use crate::runtime::{new_row, priority_or_default, rows, Suggestion, SuggestionView};
use crate::text::{opt_text, texts, trim, trimmed};

verus! {

// ---------------------------------------------------------------------------
// Rows
// ---------------------------------------------------------------------------
/// The name in a value: a non-empty text, or the first text of a list.
pub open spec fn name_in(value: JsonView) -> Option<Seq<char>> {
    match value {
        JsonView::Text(name) => if name.len() > 0 {
            Some(name)
        } else {
            None
        },
        JsonView::List(items) => if texts_in(items).len() > 0 {
            Some(texts_in(items)[0])
        } else {
            None
        },
        _ => None,
    }
}

/// Computes [`name_in`].
pub fn json_name(value: &Json) -> (name: Option<String>)
    ensures
        opt_text(name) == name_in(value@),
{
    match value {
        Json::Text(name) => if name.as_str().is_empty() {
            None
        } else {
            Some(name.clone())
        },
        Json::List(items) => {
            proof {
                lemma_list_view(*value, *items);
            }
            let found = collect_texts(items);
            if found.len() > 0 {
                Some(found[0].clone())
            } else {
                None
            }
        },
        _ => None,
    }
}

/// The row that an item stands for: a text is its own name; an object needs a
/// name. Items without a name stand for none.
pub open spec fn item_row(item: JsonView, dangerous: bool) -> Option<SuggestionView> {
    match item {
        JsonView::Text(name) => if name.len() == 0 {
            None
        } else {
            Some(
                SuggestionView {
                    insert_value: Some(name),
                    is_dangerous: dangerous,
                    ..new_row(name, Seq::empty(), "arg"@)
                },
            )
        },
        JsonView::Object(members) => match item.get("name"@) {
            None => None,
            Some(value) => match name_in(value) {
                None => None,
                Some(name) => if name.len() == 0 {
                    None
                } else {
                    let kind = match item.text_at("type"@) {
                        Some(kind) => kind,
                        None => "arg"@,
                    };
                    Some(
                        SuggestionView {
                            insert_value: match item.text_at("insertValue"@) {
                                Some(value) => Some(value),
                                None => Some(name),
                            },
                            display_name: item.text_at("displayName"@),
                            icon: item.text_at("icon"@),
                            hidden: item.bool_at("hidden"@) == Some(true),
                            should_add_space: item.bool_at("shouldAddSpace"@) == Some(true),
                            priority: priority_or_default(item.int_at("priority"@)),
                            is_dangerous: dangerous || item.bool_at("isDangerous"@) == Some(true),
                            ..new_row(name, or_empty(item.text_at("description"@)), kind)
                        },
                    )
                },
            },
        },
        _ => None,
    }
}

/// A flag, or `false` where there is none.
fn flag(value: Option<bool>) -> (set: bool)
    ensures
        set == (value == Some(true)),
{
    match value {
        Some(set) => set,
        None => false,
    }
}

/// Computes [`item_row`].
pub fn suggestion_from_json(item: &Json, is_dangerous: bool) -> (row: Option<Suggestion>)
    ensures
        match row {
            Some(row) => item_row(item@, is_dangerous) == Some(row@),
            None => item_row(item@, is_dangerous) is None,
        },
{
    if let Json::Text(name) = item {
        if name.as_str().is_empty() {
            return None;
        }
        proof {
            reveal_strlit("");
            assert(""@ =~= Seq::<char>::empty());
        }
        return Some(
            Suggestion::new(name, "", "arg").with_insert_value(name).with_dangerous(is_dangerous),
        );
    }
    if !item.is_object() {
        return None;
    }
    let name = match item.get("name") {
        Some(value) => match json_name(value) {
            Some(name) => name,
            None => {
                return None;
            },
        },
        None => {
            return None;
        },
    };
    if name.as_str().is_empty() {
        return None;
    }
    let description = item.get_text_or_empty("description");
    let kind = match item.get_text("type") {
        Some(kind) => kind,
        None => "arg".to_owned(),
    };
    let insert = match item.get_text("insertValue") {
        Some(value) => value,
        None => name.clone(),
    };
    let dangerous = is_dangerous || flag(item.get_bool("isDangerous"));
    let row = Suggestion::new(&name, &description, &kind).with_dangerous(dangerous).with_meta(
        Some(insert),
        item.get_text("displayName"),
        None,
        flag(item.get_bool("shouldAddSpace")),
        flag(item.get_bool("hidden")),
        item.get_int("priority"),
        item.get_text("icon"),
    );
    Some(row)
}

/// The rows of items, those that stand for one.
pub open spec fn item_rows(items: Seq<JsonView>, dangerous: bool) -> Seq<SuggestionView>
    decreases items.len(),
{
    if items.len() == 0 {
        Seq::empty()
    } else {
        let earlier = item_rows(items.drop_last(), dangerous);
        match item_row(items.last(), dangerous) {
            Some(row) => earlier.push(row),
            None => earlier,
        }
    }
}

/// The rows of a list; any other value has none.
pub open spec fn rows_in(value: JsonView, dangerous: bool) -> Option<Seq<SuggestionView>> {
    match value {
        JsonView::List(items) => Some(item_rows(items, dangerous)),
        _ => None,
    }
}

/// Computes [`rows_in`].
pub fn suggestions_from_json(value: &Json, is_dangerous: bool) -> (out: Option<Vec<Suggestion>>)
    ensures
        match out {
            Some(out) => rows_in(value@, is_dangerous) == Some(rows(out@)),
            None => rows_in(value@, is_dangerous) is None,
        },
{
    let items = match value {
        Json::List(items) => items,
        _ => {
            return None;
        },
    };
    let ghost all = item_views(items@);
    proof {
        lemma_list_view(*value, *items);
    }
    let mut out: Vec<Suggestion> = Vec::new();
    let mut i: usize = 0;
    proof {
        assert(rows(out@) =~= Seq::<SuggestionView>::empty());
    }
    while i < items.len()
        invariant
            i <= items@.len(),
            all == item_views(items@),
            rows(out@) == item_rows(all.take(i as int), is_dangerous),
        decreases items@.len() - i,
    {
        proof {
            assert(all.take(i + 1).drop_last() =~= all.take(i as int));
            assert(all.take(i + 1).last() == items@[i as int]@);
        }
        if let Some(row) = suggestion_from_json(&items[i], is_dangerous) {
            let ghost had = out@;
            let ghost view = row@;
            out.push(row);
            proof {
                assert(rows(out@) =~= rows(had).push(view));
            }
        }
        i += 1;
    }
    proof {
        assert(all.take(all.len() as int) =~= all);
    }
    Some(out)
}

// ---------------------------------------------------------------------------
// Commands
// ---------------------------------------------------------------------------
/// A command that a hook asks for.
#[derive(Debug, PartialEq, Eq)]
pub struct ScriptCommand {
    pub command: String,
    pub args: Vec<String>,
    pub timeout_ms: Option<i64>,
}

/// A command that a hook asks for.
#[verifier::ext_equal]
pub struct ScriptCommandView {
    pub command: Seq<char>,
    pub args: Seq<Seq<char>>,
    pub timeout_ms: Option<i64>,
}

impl View for ScriptCommand {
    type V = ScriptCommandView;

    open spec fn view(&self) -> ScriptCommandView {
        ScriptCommandView {
            command: self.command@,
            args: texts(self.args@),
            timeout_ms: self.timeout_ms,
        }
    }
}

/// The command in a value: a text is a shell line, a list is a program and its
/// arguments, an object names them. A blank command is none.
pub open spec fn command_in(value: JsonView) -> Option<ScriptCommandView> {
    match value {
        JsonView::Text(line) => if trimmed(line).len() == 0 {
            None
        } else {
            Some(
                ScriptCommandView { command: "sh"@, args: seq!["-c"@, line], timeout_ms: None },
            )
        },
        JsonView::List(items) => {
            let parts = texts_in(items);
            if parts.len() == 0 || parts[0].len() == 0 {
                None
            } else {
                Some(
                    ScriptCommandView { command: parts[0], args: parts.skip(1), timeout_ms: None },
                )
            }
        },
        JsonView::Object(members) => match value.text_at("command"@) {
            None => None,
            Some(command) => if command.len() == 0 {
                None
            } else {
                Some(
                    ScriptCommandView {
                        command,
                        args: texts_in(value.items_at("args"@)),
                        timeout_ms: value.int_at("timeout"@),
                    },
                )
            },
        },
        _ => None,
    }
}

/// The texts of the list under a key.
fn texts_under(value: &Json, key: &str) -> (out: Vec<String>)
    ensures
        texts(out@) == texts_in(value@.items_at(key@)),
{
    match value.get(key) {
        Some(inner) => match inner {
            Json::List(items) => {
                proof {
                    lemma_list_view(*inner, *items);
                }
                collect_texts(items)
            },
            _ => {
                let none: Vec<String> = Vec::new();
                proof {
                    assert(texts(none@) =~= Seq::<Seq<char>>::empty());
                }
                none
            },
        },
        None => {
            let none: Vec<String> = Vec::new();
            proof {
                assert(texts(none@) =~= Seq::<Seq<char>>::empty());
            }
            none
        },
    }
}

/// Computes [`command_in`].
pub fn script_command_from_json(value: &Json) -> (command: Option<ScriptCommand>)
    ensures
        match command {
            Some(command) => command_in(value@) == Some(command@),
            None => command_in(value@) is None,
        },
{
    match value {
        Json::Text(line) => {
            if trim(line).as_str().is_empty() {
                return None;
            }
            let mut args: Vec<String> = Vec::new();
            args.push("-c".to_owned());
            args.push(line.clone());
            let command = ScriptCommand { command: "sh".to_owned(), args, timeout_ms: None };
            proof {
                assert(command@.args =~= seq!["-c"@, line@]);
            }
            Some(command)
        },
        Json::List(items) => {
            proof {
                lemma_list_view(*value, *items);
            }
            let parts = collect_texts(items);
            if parts.len() == 0 || parts[0].as_str().is_empty() {
                return None;
            }
            let mut args: Vec<String> = Vec::new();
            let mut i: usize = 1;
            let ghost all = texts(parts@);
            proof {
                assert(texts(args@) =~= all.subrange(1, 1));
            }
            while i < parts.len()
                invariant
                    1 <= i <= parts@.len(),
                    all == texts(parts@),
                    texts(args@) == all.subrange(1, i as int),
                decreases parts@.len() - i,
            {
                let ghost had = args@;
                args.push(parts[i].clone());
                i += 1;
                proof {
                    assert(texts(args@) =~= texts(had).push(all[i - 1]));
                    assert(all.subrange(1, i as int) =~= all.subrange(1, i - 1).push(all[i - 1]));
                }
            }
            proof {
                assert(all.subrange(1, all.len() as int) =~= all.skip(1));
            }
            Some(ScriptCommand { command: parts[0].clone(), args, timeout_ms: None })
        },
        Json::Object(_) => {
            let command = match value.get_text("command") {
                Some(command) => command,
                None => {
                    return None;
                },
            };
            if command.as_str().is_empty() {
                return None;
            }
            Some(
                ScriptCommand {
                    command,
                    args: texts_under(value, "args"),
                    timeout_ms: value.get_int("timeout"),
                },
            )
        },
        _ => None,
    }
}

// ---------------------------------------------------------------------------
// Requests to run commands
// ---------------------------------------------------------------------------
/// A command that a running hook asks for.
#[derive(Debug)]
pub struct ParsedCommand {
    pub command: String,
    pub args: Vec<String>,
    pub cwd: String,
    pub env: Vec<(String, String)>,
    pub timeout_ms: u64,
}

/// A command that a running hook asks for.
#[verifier::ext_equal]
pub struct ParsedView {
    pub command: Seq<char>,
    pub args: Seq<Seq<char>>,
    pub cwd: Seq<char>,
    pub env: Seq<(Seq<char>, Seq<char>)>,
    pub timeout_ms: u64,
}

impl View for ParsedCommand {
    type V = ParsedView;

    open spec fn view(&self) -> ParsedView {
        ParsedView {
            command: self.command@,
            args: texts(self.args@),
            cwd: self.cwd@,
            env: crate::sorted::pair_texts(self.env@),
            timeout_ms: self.timeout_ms,
        }
    }
}

/// The larger of two limits.
pub open spec fn longer(a: u64, b: u64) -> u64 {
    if a >= b {
        a
    } else {
        b
    }
}

/// Whether every item is a text.
pub open spec fn all_texts(items: Seq<JsonView>) -> bool {
    forall|i: int| 0 <= i < items.len() ==> (#[trigger] items[i]) is Text
}

/// The members whose value is a text.
pub open spec fn text_members(members: Seq<(Seq<char>, JsonView)>) -> Seq<(Seq<char>, Seq<char>)>
    decreases members.len(),
{
    if members.len() == 0 {
        Seq::empty()
    } else {
        match members.last().1 {
            JsonView::Text(text) => text_members(members.drop_last()).push(
                (members.last().0, text),
            ),
            _ => text_members(members.drop_last()),
        }
    }
}

/// The command in a request: a text is a shell line, an object names a program.
/// A list of arguments that holds anything but texts counts as empty. `timeout`
/// is the request's own limit in whole milliseconds, where it gives a positive
/// one.
pub open spec fn requested(
    input: JsonView,
    default_cwd: Seq<char>,
    default_timeout_ms: u64,
    timeout: Option<u64>,
) -> Option<ParsedView> {
    match input {
        JsonView::Text(line) => Some(
            ParsedView {
                command: "sh"@,
                args: seq!["-c"@, line],
                cwd: default_cwd,
                env: Seq::empty(),
                timeout_ms: longer(default_timeout_ms, 5000),
            },
        ),
        JsonView::Object(members) => match input.text_at("command"@) {
            None => None,
            Some(command) => Some(
                ParsedView {
                    command,
                    args: if all_texts(input.items_at("args"@)) {
                        texts_in(input.items_at("args"@))
                    } else {
                        Seq::empty()
                    },
                    cwd: match input.text_at("cwd"@) {
                        Some(cwd) => if cwd.len() > 0 {
                            cwd
                        } else {
                            default_cwd
                        },
                        None => default_cwd,
                    },
                    env: match input.get("env"@) {
                        Some(JsonView::Object(env)) => text_members(env),
                        _ => Seq::empty(),
                    },
                    timeout_ms: match timeout {
                        Some(timeout) => longer(default_timeout_ms, timeout),
                        None => default_timeout_ms,
                    },
                },
            ),
        },
        _ => None,
    }
}

fn only_texts(items: &[Json]) -> (yes: bool)
    ensures
        yes == all_texts(item_views(items@)),
{
    let ghost views = item_views(items@);
    let mut i: usize = 0;
    while i < items.len()
        invariant
            i <= items@.len(),
            views == item_views(items@),
            forall|k: int| 0 <= k < i ==> (#[trigger] views[k]) is Text,
        decreases items@.len() - i,
    {
        match &items[i] {
            Json::Text(_) => {},
            _ => {
                proof {
                    assert(!(views[i as int] is Text));
                }
                return false;
            },
        }
        i += 1;
    }
    true
}

/// The arguments of a request.
fn request_args(input: &Json) -> (args: Vec<String>)
    ensures
        texts(args@) == if all_texts(input@.items_at("args"@)) {
            texts_in(input@.items_at("args"@))
        } else {
            Seq::empty()
        },
{
    let none: Vec<String> = Vec::new();
    proof {
        assert(texts(none@) =~= Seq::<Seq<char>>::empty());
    }
    if let Some(inner) = input.get("args") {
        if let Json::List(items) = inner {
            proof {
                lemma_list_view(*inner, *items);
            }
            if only_texts(items) {
                return collect_texts(items);
            }
        }
    }
    none
}

fn request_env(input: &Json) -> (env: Vec<(String, String)>)
    ensures
        crate::sorted::pair_texts(env@) == (match input@.get("env"@) {
            Some(JsonView::Object(env)) => text_members(env),
            _ => Seq::empty(),
        }),
{
    let mut out: Vec<(String, String)> = Vec::new();
    proof {
        assert(crate::sorted::pair_texts(out@) =~= Seq::<(Seq<char>, Seq<char>)>::empty());
    }
    let inner = match input.get("env") {
        Some(inner) => inner,
        None => {
            return out;
        },
    };
    let members = match inner {
        Json::Object(members) => members,
        _ => {
            return out;
        },
    };
    let ghost all = crate::json::member_views(members@);
    proof {
        crate::json::lemma_object_view(*inner, *members);
    }
    let mut i: usize = 0;
    while i < members.len()
        invariant
            i <= members@.len(),
            all == crate::json::member_views(members@),
            crate::sorted::pair_texts(out@) == text_members(all.take(i as int)),
        decreases members@.len() - i,
    {
        proof {
            assert(all.take(i + 1).drop_last() =~= all.take(i as int));
            assert(all.take(i + 1).last() == (members@[i as int].0@, members@[i as int].1@));
        }
        if let Json::Text(value) = &members[i].1 {
            let ghost had = out@;
            out.push((members[i].0.clone(), value.clone()));
            proof {
                assert(crate::sorted::pair_texts(out@) =~= crate::sorted::pair_texts(had).push(
                    (members@[i as int].0@, value@),
                ));
            }
        }
        i += 1;
    }
    proof {
        assert(all.take(all.len() as int) =~= all);
    }
    out
}

/// Computes [`requested`].
pub fn parse_execute_input(
    input: &Json,
    default_cwd: &str,
    default_timeout_ms: u64,
    timeout: Option<u64>,
) -> (command: Option<ParsedCommand>)
    ensures
        match command {
            Some(command) => requested(input@, default_cwd@, default_timeout_ms, timeout) == Some(
                command@,
            ),
            None => requested(input@, default_cwd@, default_timeout_ms, timeout) is None,
        },
{
    match input {
        Json::Text(line) => {
            let mut args: Vec<String> = Vec::new();
            args.push("-c".to_owned());
            args.push(line.clone());
            let limit: u64 = if default_timeout_ms >= 5000 {
                default_timeout_ms
            } else {
                5000
            };
            let command = ParsedCommand {
                command: "sh".to_owned(),
                args,
                cwd: default_cwd.to_owned(),
                env: Vec::new(),
                timeout_ms: limit,
            };
            proof {
                assert(command@.args =~= seq!["-c"@, line@]);
                assert(command@.env =~= Seq::<(Seq<char>, Seq<char>)>::empty());
            }
            Some(command)
        },
        Json::Object(_) => {
            let command = match input.get_text("command") {
                Some(command) => command,
                None => {
                    return None;
                },
            };
            let cwd = match input.get_text("cwd") {
                Some(cwd) => if cwd.as_str().is_empty() {
                    default_cwd.to_owned()
                } else {
                    cwd
                },
                None => default_cwd.to_owned(),
            };
            let limit: u64 = match timeout {
                Some(timeout) => if timeout > default_timeout_ms {
                    timeout
                } else {
                    default_timeout_ms
                },
                None => default_timeout_ms,
            };
            Some(
                ParsedCommand {
                    command,
                    args: request_args(input),
                    cwd,
                    env: request_env(input),
                    timeout_ms: limit,
                },
            )
        },
        _ => None,
    }
}

// ---------------------------------------------------------------------------
// Laws
// ---------------------------------------------------------------------------
/// Rows of hooks have a name and text to insert, and are dangerous where the
/// argument is.
pub proof fn law_hook_rows_are_usable(items: Seq<JsonView>, dangerous: bool)
    ensures
        forall|i: int|
            0 <= i < item_rows(items, dangerous).len() ==> {
                let row = #[trigger] item_rows(items, dangerous)[i];
                &&& row.name.len() > 0
                &&& row.insert_value is Some
                &&& dangerous ==> row.is_dangerous
            },
    decreases items.len(),
{
    if items.len() > 0 {
        law_hook_rows_are_usable(items.drop_last(), dangerous);
    }
}

} // verus!
