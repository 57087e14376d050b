//! Specs that hooks compute: reading them from JSON and merging them with the
//! specs that asked for them.
use std::sync::Arc;
use vstd::prelude::*;

use super::reply::{json_name, name_in};
use crate::ir::{
    ArgSpec, FilterStrategy, LoadSpec, OptionSpec, ParserDirectives, Spec, SuggestionMeta,
    SuggestionSeed, Template,
};
use crate::json::{
    collect_texts, item_views, lemma_list_view, or_empty, texts_in, value_under, Json, JsonView,
};
use crate::text::{copy_texts, holds_text, opt_text, same, share, texts};
use crate::tree::share_all;

verus! {

// ---------------------------------------------------------------------------
// Parts of values
// ---------------------------------------------------------------------------
proof fn lemma_value_under(members: Seq<(Seq<char>, JsonView)>, key: Seq<char>, i: int)
    requires
        0 <= i,
    ensures
        value_under(members, key, i) matches Some(value) ==> exists|k: int|
            0 <= k < members.len() && (#[trigger] members[k]).1 == value,
    decreases members.len() - i,
{
    if i < members.len() && members[i].0 != key {
        lemma_value_under(members, key, i + 1);
    } else if i < members.len() {
        assert(members[i].1 == value_under(members, key, i)->Some_0);
    }
}

/// The value under a key, and each item of a list there, is a part of the
/// object.
proof fn lemma_parts(value: JsonView, key: Seq<char>)
    ensures
        value.get(key) matches Some(inner) ==> decreases_to!(value => inner),
        value.get(key) matches Some(JsonView::List(items)) ==> decreases_to!(value => items),
{
    if let JsonView::Object(members) = value {
        lemma_value_under(members, key, 0);
        if let Some(inner) = value.get(key) {
            let k = choose|k: int| 0 <= k < members.len() && (#[trigger] members[k]).1 == inner;
            assert(decreases_to!(value => members));
            assert(decreases_to!(members => members[k]));
            assert(decreases_to!(members[k] => members[k].1));
        }
    }
}

/// The names in a value: a text, or the texts of a list that has any.
pub open spec fn names_in(value: Option<JsonView>) -> Option<Seq<Seq<char>>> {
    match value {
        Some(JsonView::Text(name)) => Some(seq![name]),
        Some(JsonView::List(items)) => if texts_in(items).len() > 0 {
            Some(texts_in(items))
        } else {
            None
        },
        _ => None,
    }
}

/// The names of an object.
pub open spec fn names_of(value: JsonView) -> Option<Seq<Seq<char>>> {
    match names_in(value.get("name"@)) {
        Some(names) => Some(names),
        None => names_in(value.get("names"@)),
    }
}

fn names_under(value: &Json, key: &str) -> (names: Option<Vec<String>>)
    ensures
        match names {
            Some(names) => names_in(value@.get(key@)) == Some(texts(names@)),
            None => names_in(value@.get(key@)) is None,
        },
{
    match value.get(key) {
        Some(inner) => match inner {
            Json::Text(name) => {
                let mut names: Vec<String> = Vec::new();
                names.push(name.clone());
                proof {
                    assert(texts(names@) =~= seq![name@]);
                }
                Some(names)
            },
            Json::List(items) => {
                proof {
                    lemma_list_view(*inner, *items);
                }
                let names = collect_texts(items);
                if names.len() > 0 {
                    Some(names)
                } else {
                    None
                }
            },
            _ => None,
        },
        None => None,
    }
}

fn json_names(value: &Json) -> (names: Option<Vec<String>>)
    ensures
        match names {
            Some(names) => names_of(value@) == Some(texts(names@)),
            None => names_of(value@) is None,
        },
{
    match names_under(value, "name") {
        Some(names) => Some(names),
        None => names_under(value, "names"),
    }
}

fn flag_under(value: &Json, key: &str) -> (set: bool)
    ensures
        set == (value@.bool_at(key@) == Some(true)),
{
    match value.get_bool(key) {
        Some(set) => set,
        None => false,
    }
}

// ---------------------------------------------------------------------------
// Rows and templates
// ---------------------------------------------------------------------------
/// Whether a meta holds what an object says about its row.
pub open spec fn is_meta_of(meta: SuggestionMeta, v: JsonView) -> bool {
    &&& opt_text(meta.suggestion_type) == v.text_at("type"@)
    &&& opt_text(meta.original_type) == v.text_at("originalType"@)
    &&& opt_text(meta.get_query_term) == v.text_at("getQueryTerm"@)
    &&& meta.js_get_query_term is None
    &&& opt_text(meta.insert_value) == v.text_at("insertValue"@)
    &&& opt_text(meta.display_name) == v.text_at("displayName"@)
    &&& opt_text(meta.separator_to_add) == v.text_at("separatorToAdd"@)
    &&& meta.should_add_space == v.bool_at("shouldAddSpace"@)
    &&& meta.hidden == (v.bool_at("hidden"@) == Some(true))
    &&& meta.priority == v.int_at("priority"@)
    &&& opt_text(meta.icon) == v.text_at("icon"@)
    &&& meta.is_dangerous == (v.bool_at("isDangerous"@) == Some(true))
}

/// Reads what an object says about its row.
pub fn meta_from_fig(object: &Json) -> (meta: SuggestionMeta)
    ensures
        is_meta_of(meta, object@),
{
    SuggestionMeta {
        suggestion_type: object.get_text("type"),
        original_type: object.get_text("originalType"),
        get_query_term: object.get_text("getQueryTerm"),
        js_get_query_term: None,
        insert_value: object.get_text("insertValue"),
        display_name: object.get_text("displayName"),
        separator_to_add: object.get_text("separatorToAdd"),
        should_add_space: object.get_bool("shouldAddSpace"),
        hidden: flag_under(object, "hidden"),
        priority: object.get_int("priority"),
        icon: object.get_text("icon"),
        is_dangerous: flag_under(object, "isDangerous"),
    }
}

/// Whether a meta says nothing.
pub open spec fn is_plain_meta(meta: SuggestionMeta) -> bool {
    &&& meta.suggestion_type is None && meta.original_type is None
    &&& meta.get_query_term is None && meta.js_get_query_term is None
    &&& meta.insert_value is None && meta.display_name is None
    &&& meta.separator_to_add is None && meta.should_add_space is None
    &&& !meta.hidden && meta.priority is None && meta.icon is None && !meta.is_dangerous
}

fn plain_meta() -> (meta: SuggestionMeta)
    ensures
        is_plain_meta(meta),
{
    SuggestionMeta {
        suggestion_type: None,
        original_type: None,
        get_query_term: None,
        js_get_query_term: None,
        insert_value: None,
        display_name: None,
        separator_to_add: None,
        should_add_space: None,
        hidden: false,
        priority: None,
        icon: None,
        is_dangerous: false,
    }
}

/// Whether an item is a static row: a text, or an object with names.
pub open spec fn is_seed_item(v: JsonView) -> bool {
    match v {
        JsonView::Text(_) => true,
        JsonView::Object(_) => names_of(v) is Some,
        _ => false,
    }
}

/// Whether a static row holds what an item says.
pub open spec fn is_seed_of(seed: SuggestionSeed, v: JsonView) -> bool {
    &&& seed.args_hint@.len() == 0
    &&& match v {
        JsonView::Text(name) => texts(seed.names@) == seq![name] && seed.description@.len() == 0
            && is_plain_meta(seed.meta),
        _ => names_of(v) == Some(texts(seed.names@)) && seed.description@ == or_empty(
            v.text_at("description"@),
        ) && is_meta_of(seed.meta, v),
    }
}

/// Reads a static row.
pub fn seed_from_fig_json(value: &Json) -> (seed: Option<SuggestionSeed>)
    ensures
        match seed {
            Some(seed) => is_seed_item(value@) && is_seed_of(seed, value@),
            None => !is_seed_item(value@),
        },
{
    match value {
        Json::Text(name) => {
            let mut names: Vec<String> = Vec::new();
            names.push(name.clone());
            proof {
                assert(texts(names@) =~= seq![name@]);
            }
            Some(
                SuggestionSeed {
                    names,
                    description: String::new(),
                    args_hint: String::new(),
                    meta: plain_meta(),
                },
            )
        },
        Json::Object(_) => match json_names(value) {
            Some(names) => Some(
                SuggestionSeed {
                    names,
                    description: value.get_text_or_empty("description"),
                    args_hint: String::new(),
                    meta: meta_from_fig(value),
                },
            ),
            None => None,
        },
        _ => None,
    }
}

/// Whether static rows are those of a list's items, in order.
pub open spec fn are_seeds_of(list: Seq<SuggestionSeed>, items: Seq<JsonView>) -> bool
    decreases items.len(),
{
    if items.len() == 0 {
        list.len() == 0
    } else if is_seed_item(items.last()) {
        list.len() > 0 && is_seed_of(list.last(), items.last()) && are_seeds_of(
            list.drop_last(),
            items.drop_last(),
        )
    } else {
        are_seeds_of(list, items.drop_last())
    }
}

fn seeds_under(value: &Json, key: &str) -> (out: Vec<SuggestionSeed>)
    ensures
        are_seeds_of(out@, value@.items_at(key@)),
{
    let mut out: Vec<SuggestionSeed> = Vec::new();
    let inner = match value.get(key) {
        Some(inner) => inner,
        None => {
            return out;
        },
    };
    let items = match inner {
        Json::List(items) => items,
        _ => {
            return out;
        },
    };
    let ghost all = item_views(items@);
    proof {
        lemma_list_view(*inner, *items);
    }
    let mut i: usize = 0;
    while i < items.len()
        invariant
            i <= items@.len(),
            all == item_views(items@),
            are_seeds_of(out@, all.take(i as int)),
        decreases items@.len() - i,
    {
        proof {
            assert(all.take(i + 1).drop_last() =~= all.take(i as int));
            assert(all.take(i + 1).last() == items@[i as int]@);
        }
        if let Some(seed) = seed_from_fig_json(&items[i]) {
            let ghost had = out@;
            out.push(seed);
            proof {
                assert(out@.drop_last() =~= had);
            }
        }
        i += 1;
    }
    proof {
        assert(all.take(all.len() as int) =~= all);
    }
    out
}

/// The template of a name.
pub open spec fn template_named(name: Seq<char>) -> Option<Template> {
    if name == "filepaths"@ {
        Some(Template::Filepaths)
    } else if name == "folders"@ {
        Some(Template::Folders)
    } else {
        None
    }
}

/// The templates among names, in order.
pub open spec fn templates_named(names: Seq<Seq<char>>) -> Seq<Template>
    decreases names.len(),
{
    if names.len() == 0 {
        Seq::empty()
    } else {
        match template_named(names.last()) {
            Some(template) => templates_named(names.drop_last()).push(template),
            None => templates_named(names.drop_last()),
        }
    }
}

/// The templates of an argument.
pub open spec fn templates_of(v: JsonView) -> Seq<Template> {
    let value = match v.get("template"@) {
        Some(value) => Some(value),
        None => v.get("templates"@),
    };
    match value {
        Some(JsonView::Text(name)) => templates_named(seq![name]),
        Some(JsonView::List(items)) => templates_named(texts_in(items)),
        _ => Seq::empty(),
    }
}

fn collect_templates(names: &[String]) -> (out: Vec<Template>)
    ensures
        out@ == templates_named(texts(names@)),
{
    let ghost all = texts(names@);
    let mut out: Vec<Template> = Vec::new();
    let mut i: usize = 0;
    proof {
        assert(out@ =~= Seq::<Template>::empty());
    }
    while i < names.len()
        invariant
            i <= names@.len(),
            all == texts(names@),
            out@ == templates_named(all.take(i as int)),
        decreases names@.len() - i,
    {
        proof {
            assert(all.take(i + 1).drop_last() =~= all.take(i as int));
        }
        if same(&names[i], "filepaths") {
            out.push(Template::Filepaths);
        } else if same(&names[i], "folders") {
            out.push(Template::Folders);
        }
        i += 1;
    }
    proof {
        assert(all.take(all.len() as int) =~= all);
    }
    out
}

fn templates_from_fig(value: &Json) -> (out: Vec<Template>)
    ensures
        out@ == templates_of(value@),
{
    let found = match value.get("template") {
        Some(inner) => Some(inner),
        None => value.get("templates"),
    };
    match found {
        Some(inner) => match inner {
            Json::Text(name) => {
                let mut names: Vec<String> = Vec::new();
                names.push(name.clone());
                proof {
                    assert(texts(names@) =~= seq![name@]);
                }
                collect_templates(&names)
            },
            Json::List(items) => {
                proof {
                    lemma_list_view(*inner, *items);
                }
                collect_templates(&collect_texts(items))
            },
            _ => Vec::new(),
        },
        None => Vec::new(),
    }
}

// ---------------------------------------------------------------------------
// References, strategies and directives
// ---------------------------------------------------------------------------
/// Whether a reference is the path under `loadSpec`.
pub open spec fn is_load_of(load: Option<LoadSpec>, v: JsonView) -> bool {
    match (load, v.text_at("loadSpec"@)) {
        (Some(LoadSpec::Path(path)), Some(text)) => path@ == text,
        (None, None) => true,
        _ => false,
    }
}

fn load_from_fig(value: &Json) -> (load: Option<LoadSpec>)
    ensures
        is_load_of(load, value@),
{
    match value.get_text("loadSpec") {
        Some(path) => Some(LoadSpec::Path(path)),
        None => None,
    }
}

/// The strategy of a name.
pub open spec fn strategy_named(name: Option<Seq<char>>) -> Option<FilterStrategy> {
    match name {
        Some(name) => if name == "prefix"@ {
            Some(FilterStrategy::Prefix)
        } else if name == "fuzzy"@ {
            Some(FilterStrategy::Fuzzy)
        } else if name == "default"@ {
            Some(FilterStrategy::Default)
        } else {
            None
        },
        None => None,
    }
}

fn filter_strategy_from_fig(value: &Json) -> (strategy: Option<FilterStrategy>)
    ensures
        strategy == strategy_named(value@.text_at("filterStrategy"@)),
{
    match value.get_text("filterStrategy") {
        Some(name) => if same(&name, "prefix") {
            Some(FilterStrategy::Prefix)
        } else if same(&name, "fuzzy") {
            Some(FilterStrategy::Fuzzy)
        } else if same(&name, "default") {
            Some(FilterStrategy::Default)
        } else {
            None
        },
        None => None,
    }
}

/// Whether directives hold what the object under `parserDirectives` says.
pub open spec fn are_directives_of(directives: Option<ParserDirectives>, v: JsonView) -> bool {
    match (directives, v.get("parserDirectives"@)) {
        (Some(d), Some(JsonView::Object(members))) => {
            let inner = JsonView::Object(members);
            &&& d.options_must_precede_arguments == inner.bool_at("optionsMustPrecedeArguments"@)
            &&& d.flags_are_posix_noncompliant == inner.bool_at("flagsArePosixNoncompliant"@)
            &&& match (d.option_arg_separators, inner.get("optionArgSeparators"@)) {
                (Some(list), Some(JsonView::List(items))) => texts(list@) == texts_in(items),
                (Some(_), _) => false,
                (None, Some(JsonView::List(_))) => false,
                (None, _) => true,
            }
        },
        (Some(_), _) => false,
        (None, Some(JsonView::Object(_))) => false,
        (None, _) => true,
    }
}

fn parser_directives_from_fig(value: &Json) -> (directives: Option<ParserDirectives>)
    ensures
        are_directives_of(directives, value@),
{
    let inner = match value.get("parserDirectives") {
        Some(inner) => inner,
        None => {
            return None;
        },
    };
    if !inner.is_object() {
        return None;
    }
    let separators: Option<Vec<String>> = match inner.get("optionArgSeparators") {
        Some(list) => match list {
            Json::List(items) => {
                proof {
                    lemma_list_view(*list, *items);
                }
                Some(collect_texts(items))
            },
            _ => None,
        },
        None => None,
    };
    Some(
        ParserDirectives {
            options_must_precede_arguments: inner.get_bool("optionsMustPrecedeArguments"),
            flags_are_posix_noncompliant: inner.get_bool("flagsArePosixNoncompliant"),
            option_arg_separators: separators,
        },
    )
}

// ---------------------------------------------------------------------------
// Arguments
// ---------------------------------------------------------------------------
/// Whether an argument holds what an object says, and nothing else.
pub open spec fn is_arg_of(arg: ArgSpec, v: JsonView) -> bool {
    &&& arg.name@ == or_empty(
        match v.get("name"@) {
            Some(name) => name_in(name),
            None => None,
        },
    )
    &&& arg.description@ == or_empty(v.text_at("description"@))
    &&& arg.templates@ == templates_of(v)
    &&& are_seeds_of(arg.suggestions@, v.items_at("suggestions"@))
    &&& arg.is_optional == (v.bool_at("isOptional"@) == Some(true))
    &&& arg.is_variadic == (v.bool_at("isVariadic"@) == Some(true))
    &&& arg.is_command == (v.bool_at("isCommand"@) == Some(true))
    &&& arg.is_script == (v.bool_at("isScript"@) == Some(true))
    &&& opt_text(arg.is_module) == v.text_at("isModule"@)
    &&& is_load_of(arg.load_spec, v)
    &&& is_meta_of(arg.meta, v)
    &&& arg.script@.len() == 0 && arg.split_on is None && arg.js_post_process is None
    &&& arg.js_custom is None && arg.js_script is None && arg.js_get_query_term is None
    &&& arg.cache_key is None && arg.cache_by_directory is None && arg.cache_ttl_ms is None
    &&& arg.cache_strategy is None && arg.script_timeout_ms is None && arg.debounce_ms is None
    &&& arg.builtin is None && arg.builtins@.len() == 0 && arg.generators@.len() == 0
    &&& arg.resolved_spec is None && arg.filter_strategy is None
    &&& arg.suggest_current_token is None && arg.options_can_break_variadic_arg is None
}

/// Reads an argument; only an object is one.
pub fn arg_from_fig_json(value: &Json) -> (arg: Option<ArgSpec>)
    ensures
        match arg {
            Some(arg) => value@ is Object && is_arg_of(arg, value@),
            None => !(value@ is Object),
        },
{
    if !value.is_object() {
        return None;
    }
    let name = match value.get("name") {
        Some(inner) => match json_name(inner) {
            Some(name) => name,
            None => String::new(),
        },
        None => String::new(),
    };
    Some(
        ArgSpec {
            name,
            description: value.get_text_or_empty("description"),
            templates: templates_from_fig(value),
            script: Vec::new(),
            split_on: None,
            js_post_process: None,
            js_custom: None,
            js_script: None,
            js_get_query_term: None,
            cache_key: None,
            cache_by_directory: None,
            cache_ttl_ms: None,
            cache_strategy: None,
            script_timeout_ms: None,
            debounce_ms: None,
            builtin: None,
            builtins: Vec::new(),
            generators: Vec::new(),
            suggestions: seeds_under(value, "suggestions"),
            meta: meta_from_fig(value),
            load_spec: load_from_fig(value),
            resolved_spec: None,
            is_optional: flag_under(value, "isOptional"),
            is_variadic: flag_under(value, "isVariadic"),
            filter_strategy: None,
            suggest_current_token: None,
            options_can_break_variadic_arg: None,
            is_command: flag_under(value, "isCommand"),
            is_script: flag_under(value, "isScript"),
            is_module: value.get_text("isModule"),
        },
    )
}

/// Whether arguments are those of items, in order; items that are no objects
/// are left out.
pub open spec fn are_args_of(list: Seq<Arc<ArgSpec>>, items: Seq<JsonView>) -> bool
    decreases items.len(),
{
    if items.len() == 0 {
        list.len() == 0
    } else if items.last() is Object {
        list.len() > 0 && is_arg_of(*list.last(), items.last()) && are_args_of(
            list.drop_last(),
            items.drop_last(),
        )
    } else {
        are_args_of(list, items.drop_last())
    }
}

/// The items under `args`: a list, or one that stands alone.
pub open spec fn arg_items(v: JsonView) -> Seq<JsonView> {
    match v.get("args"@) {
        Some(JsonView::List(items)) => items,
        Some(item) => seq![item],
        None => Seq::empty(),
    }
}

fn args_from_fig(value: &Json) -> (out: Vec<Arc<ArgSpec>>)
    ensures
        are_args_of(out@, arg_items(value@)),
{
    let mut out: Vec<Arc<ArgSpec>> = Vec::new();
    let inner = match value.get("args") {
        Some(inner) => inner,
        None => {
            return out;
        },
    };
    let items = match inner {
        Json::List(items) => items,
        _ => {
            let ghost alone = seq![inner@];
            proof {
                assert(alone.drop_last() =~= Seq::<JsonView>::empty());
                assert(alone.last() == inner@);
                assert(are_args_of(Seq::empty(), alone.drop_last()));
            }
            if let Some(arg) = arg_from_fig_json(inner) {
                out.push(Arc::new(arg));
                proof {
                    assert(out@.drop_last() =~= Seq::<Arc<ArgSpec>>::empty());
                }
            }
            proof {
                assert(out@.len() == 0 ==> out@ =~= Seq::<Arc<ArgSpec>>::empty());
            }
            return out;
        },
    };
    let ghost all = item_views(items@);
    proof {
        lemma_list_view(*inner, *items);
    }
    let mut i: usize = 0;
    while i < items.len()
        invariant
            i <= items@.len(),
            all == item_views(items@),
            are_args_of(out@, all.take(i as int)),
        decreases items@.len() - i,
    {
        proof {
            assert(all.take(i + 1).drop_last() =~= all.take(i as int));
            assert(all.take(i + 1).last() == items@[i as int]@);
        }
        if let Some(arg) = arg_from_fig_json(&items[i]) {
            let ghost had = out@;
            out.push(Arc::new(arg));
            proof {
                assert(out@.drop_last() =~= had);
            }
        }
        i += 1;
    }
    proof {
        assert(all.take(all.len() as int) =~= all);
    }
    out
}

// ---------------------------------------------------------------------------
// Options
// ---------------------------------------------------------------------------
/// Whether an item is a command or an option: an object with names.
pub open spec fn is_named_item(v: JsonView) -> bool {
    v is Object && names_of(v) is Some
}

/// Whether an option holds what an object says, and nothing else.
pub open spec fn is_option_of(option: OptionSpec, v: JsonView) -> bool {
    &&& names_of(v) == Some(texts(option.names@))
    &&& option.description@ == or_empty(v.text_at("description"@))
    &&& are_args_of(option.args@, arg_items(v))
    &&& is_meta_of(option.meta, v)
    &&& is_load_of(option.load_spec, v)
    &&& option.requires_separator is None && !option.requires_equals
    &&& option.requires_subcommand is None && option.exclusive_on@.len() == 0
    &&& option.depends_on@.len() == 0 && option.is_repeatable is None && !option.is_persistent
}

/// Reads an option.
pub fn option_from_fig_json(value: &Json) -> (option: Option<OptionSpec>)
    ensures
        match option {
            Some(option) => is_named_item(value@) && is_option_of(option, value@),
            None => !is_named_item(value@),
        },
{
    if !value.is_object() {
        return None;
    }
    let names = match json_names(value) {
        Some(names) => names,
        None => {
            return None;
        },
    };
    Some(
        OptionSpec {
            names,
            description: value.get_text_or_empty("description"),
            args: args_from_fig(value),
            meta: meta_from_fig(value),
            load_spec: load_from_fig(value),
            requires_separator: None,
            requires_equals: false,
            requires_subcommand: None,
            exclusive_on: Vec::new(),
            depends_on: Vec::new(),
            is_repeatable: None,
            is_persistent: false,
        },
    )
}

/// Whether options are those of items, in order; other items are left out.
pub open spec fn are_options_of(list: Seq<Arc<OptionSpec>>, items: Seq<JsonView>) -> bool
    decreases items.len(),
{
    if items.len() == 0 {
        list.len() == 0
    } else if is_named_item(items.last()) {
        list.len() > 0 && is_option_of(*list.last(), items.last()) && are_options_of(
            list.drop_last(),
            items.drop_last(),
        )
    } else {
        are_options_of(list, items.drop_last())
    }
}

fn options_under(value: &Json, key: &str) -> (out: Vec<Arc<OptionSpec>>)
    ensures
        are_options_of(out@, value@.items_at(key@)),
{
    let mut out: Vec<Arc<OptionSpec>> = Vec::new();
    let inner = match value.get(key) {
        Some(inner) => inner,
        None => {
            return out;
        },
    };
    let items = match inner {
        Json::List(items) => items,
        _ => {
            return out;
        },
    };
    let ghost all = item_views(items@);
    proof {
        lemma_list_view(*inner, *items);
    }
    let mut i: usize = 0;
    while i < items.len()
        invariant
            i <= items@.len(),
            all == item_views(items@),
            are_options_of(out@, all.take(i as int)),
        decreases items@.len() - i,
    {
        proof {
            assert(all.take(i + 1).drop_last() =~= all.take(i as int));
            assert(all.take(i + 1).last() == items@[i as int]@);
        }
        if let Some(option) = option_from_fig_json(&items[i]) {
            let ghost had = out@;
            out.push(Arc::new(option));
            proof {
                assert(out@.drop_last() =~= had);
            }
        }
        i += 1;
    }
    proof {
        assert(all.take(all.len() as int) =~= all);
    }
    out
}

// ---------------------------------------------------------------------------
// Commands
// ---------------------------------------------------------------------------
/// Whether a spec holds what an object says, and nothing else.
pub open spec fn is_spec_of(spec: Spec, v: JsonView) -> bool
    decreases v,
    via is_spec_of_decreases
{
    &&& names_of(v) == Some(texts(spec.names@))
    &&& spec.description@ == or_empty(v.text_at("description"@))
    &&& match v.get("subcommands"@) {
        Some(JsonView::List(items)) => are_specs_of(spec.subcommands@, items),
        _ => spec.subcommands@.len() == 0,
    }
    &&& are_options_of(spec.options@, v.items_at("options"@))
    &&& are_options_of(spec.persistent_options@, v.items_at("persistentOptions"@))
    &&& are_args_of(spec.args@, arg_items(v))
    &&& are_seeds_of(spec.additional_suggestions@, v.items_at("additionalSuggestions"@))
    &&& is_meta_of(spec.meta, v)
    &&& is_load_of(spec.load_spec, v)
    &&& spec.requires_subcommand == v.bool_at("requiresSubcommand"@)
    &&& spec.filter_strategy == strategy_named(v.text_at("filterStrategy"@))
    &&& are_directives_of(spec.parser_directives, v)
    &&& spec.js_generate_spec is None
    &&& opt_text(spec.generate_spec_cache_key) == v.text_at("generateSpecCacheKey"@)
}

/// Whether specs are those of items, in order; other items are left out.
pub open spec fn are_specs_of(list: Seq<Arc<Spec>>, items: Seq<JsonView>) -> bool
    decreases items,
{
    if items.len() == 0 {
        list.len() == 0
    } else if is_named_item(items.last()) {
        list.len() > 0 && is_spec_of(*list.last(), items.last()) && are_specs_of(
            list.drop_last(),
            items.drop_last(),
        )
    } else {
        are_specs_of(list, items.drop_last())
    }
}

#[via_fn]
proof fn is_spec_of_decreases(spec: Spec, v: JsonView) {
    lemma_parts(v, "subcommands"@);
}

/// Reads the spec of a command.
pub fn spec_from_fig_json(value: &Json) -> (spec: Option<Spec>)
    ensures
        match spec {
            Some(spec) => is_named_item(value@) && is_spec_of(spec, value@),
            None => !is_named_item(value@),
        },
    decreases value@,
{
    if !value.is_object() {
        return None;
    }
    let names = match json_names(value) {
        Some(names) => names,
        None => {
            return None;
        },
    };
    let mut subcommands: Vec<Arc<Spec>> = Vec::new();
    if let Some(inner) = value.get("subcommands") {
        if let Json::List(items) = inner {
            let ghost all = item_views(items@);
            proof {
                lemma_list_view(*inner, *items);
                lemma_parts(value@, "subcommands"@);
                assert(are_specs_of(subcommands@, all.take(0)));
            }
            let mut i: usize = 0;
            while i < items.len()
                invariant
                    i <= items@.len(),
                    all == item_views(items@),
                    decreases_to!(value@ => all),
                    are_specs_of(subcommands@, all.take(i as int)),
                decreases items@.len() - i,
            {
                proof {
                    assert(all.take(i + 1).drop_last() =~= all.take(i as int));
                    assert(all.take(i + 1).last() == items@[i as int]@);
                    assert(decreases_to!(all => all[i as int]));
                    assert(all[i as int] == items@[i as int]@);
                }
                if let Some(spec) = spec_from_fig_json(&items[i]) {
                    let ghost had = subcommands@;
                    subcommands.push(Arc::new(spec));
                    proof {
                        assert(subcommands@.drop_last() =~= had);
                    }
                }
                i += 1;
            }
            proof {
                assert(all.take(all.len() as int) =~= all);
            }
        }
    }
    Some(
        Spec {
            names,
            description: value.get_text_or_empty("description"),
            subcommands,
            options: options_under(value, "options"),
            persistent_options: options_under(value, "persistentOptions"),
            args: args_from_fig(value),
            additional_suggestions: seeds_under(value, "additionalSuggestions"),
            meta: meta_from_fig(value),
            load_spec: load_from_fig(value),
            requires_subcommand: value.get_bool("requiresSubcommand"),
            filter_strategy: filter_strategy_from_fig(value),
            parser_directives: parser_directives_from_fig(value),
            js_generate_spec: None,
            generate_spec_cache_key: value.get_text("generateSpecCacheKey"),
        },
    )
}

// ---------------------------------------------------------------------------
// Merging
// ---------------------------------------------------------------------------
/// Whether two lists of names have one in common.
pub open spec fn share_a_name(a: Seq<Seq<char>>, b: Seq<Seq<char>>) -> bool {
    exists|i: int| 0 <= i < a.len() && b.contains(#[trigger] a[i])
}

fn shares_a_name(a: &[String], b: &[String]) -> (yes: bool)
    ensures
        yes == share_a_name(texts(a@), texts(b@)),
{
    let mut i: usize = 0;
    while i < a.len()
        invariant
            i <= a@.len(),
            forall|k: int| 0 <= k < i ==> !texts(b@).contains(#[trigger] texts(a@)[k]),
        decreases a@.len() - i,
    {
        let found = holds_text(b, &a[i]);
        proof {
            assert(texts(a@)[i as int] == a@[i as int]@);
        }
        if found {
            return true;
        }
        i += 1;
    }
    false
}

/// The first spec, from `i` on, that has one of the names.
pub open spec fn spec_sharing(list: Seq<Arc<Spec>>, names: Seq<Seq<char>>, i: int) -> Option<int>
    decreases list.len() - i,
{
    if i < 0 || i >= list.len() {
        None
    } else if share_a_name(names, texts(list[i].names@)) {
        Some(i)
    } else {
        spec_sharing(list, names, i + 1)
    }
}

/// Specs with others merged in: each takes the place of the first that shares
/// a name with it, or comes last.
pub open spec fn merged_specs(dest: Seq<Arc<Spec>>, incoming: Seq<Arc<Spec>>) -> Seq<Arc<Spec>>
    decreases incoming.len(),
{
    if incoming.len() == 0 {
        dest
    } else {
        let earlier = merged_specs(dest, incoming.drop_last());
        match spec_sharing(earlier, texts(incoming.last().names@), 0) {
            Some(i) => earlier.update(i, incoming.last()),
            None => earlier.push(incoming.last()),
        }
    }
}

/// Computes [`merged_specs`].
pub fn merge_specs(dest: &[Arc<Spec>], incoming: &[Arc<Spec>]) -> (out: Vec<Arc<Spec>>)
    ensures
        out@ == merged_specs(dest@, incoming@),
{
    let mut out = share_all(dest);
    let mut n: usize = 0;
    proof {
        assert(incoming@.take(0) =~= Seq::<Arc<Spec>>::empty());
    }
    while n < incoming.len()
        invariant
            n <= incoming@.len(),
            out@ == merged_specs(dest@, incoming@.take(n as int)),
        decreases incoming@.len() - n,
    {
        proof {
            assert(incoming@.take(n + 1).drop_last() =~= incoming@.take(n as int));
        }
        let spec = &incoming[n];
        let ghost names = texts(spec.names@);
        let mut i: usize = 0;
        while i < out.len() && !shares_a_name(&spec.names, &out[i].names)
            invariant
                i <= out@.len(),
                names == texts(spec.names@),
                spec_sharing(out@, names, 0) == spec_sharing(out@, names, i as int),
            decreases out@.len() - i,
        {
            i += 1;
        }
        if i < out.len() {
            out.set(i, share(spec));
        } else {
            out.push(share(spec));
        }
        n += 1;
    }
    proof {
        assert(incoming@.take(incoming@.len() as int) =~= incoming@);
    }
    out
}

/// The first option, from `i` on, that has one of the names.
pub open spec fn option_sharing(list: Seq<Arc<OptionSpec>>, names: Seq<Seq<char>>, i: int) -> Option<
    int,
>
    decreases list.len() - i,
{
    if i < 0 || i >= list.len() {
        None
    } else if share_a_name(names, texts(list[i].names@)) {
        Some(i)
    } else {
        option_sharing(list, names, i + 1)
    }
}

/// Options with others merged in: each takes the place of the first that
/// shares a name with it, or comes last.
pub open spec fn merged_options(
    dest: Seq<Arc<OptionSpec>>,
    incoming: Seq<Arc<OptionSpec>>,
) -> Seq<Arc<OptionSpec>>
    decreases incoming.len(),
{
    if incoming.len() == 0 {
        dest
    } else {
        let earlier = merged_options(dest, incoming.drop_last());
        match option_sharing(earlier, texts(incoming.last().names@), 0) {
            Some(i) => earlier.update(i, incoming.last()),
            None => earlier.push(incoming.last()),
        }
    }
}

/// Computes [`merged_options`].
pub fn merge_options(dest: &[Arc<OptionSpec>], incoming: &[Arc<OptionSpec>]) -> (out: Vec<
    Arc<OptionSpec>,
>)
    ensures
        out@ == merged_options(dest@, incoming@),
{
    let mut out = share_all(dest);
    let mut n: usize = 0;
    proof {
        assert(incoming@.take(0) =~= Seq::<Arc<OptionSpec>>::empty());
    }
    while n < incoming.len()
        invariant
            n <= incoming@.len(),
            out@ == merged_options(dest@, incoming@.take(n as int)),
        decreases incoming@.len() - n,
    {
        proof {
            assert(incoming@.take(n + 1).drop_last() =~= incoming@.take(n as int));
        }
        let option = &incoming[n];
        let ghost names = texts(option.names@);
        let mut i: usize = 0;
        while i < out.len() && !shares_a_name(&option.names, &out[i].names)
            invariant
                i <= out@.len(),
                names == texts(option.names@),
                option_sharing(out@, names, 0) == option_sharing(out@, names, i as int),
            decreases out@.len() - i,
        {
            i += 1;
        }
        if i < out.len() {
            out.set(i, share(option));
        } else {
            out.push(share(option));
        }
        n += 1;
    }
    proof {
        assert(incoming@.take(incoming@.len() as int) =~= incoming@);
    }
    out
}

/// Whether a spec is a computed one merged with the one that asked for it: the
/// names and arguments of the latter stay, its subcommands and options take in
/// the computed ones, and a missing description is its own.
pub open spec fn is_merged(merged: Spec, wrapper: Spec, generated: Spec) -> bool {
    &&& texts(merged.names@) == if wrapper.names@.len() == 0 {
        texts(generated.names@)
    } else {
        texts(wrapper.names@)
    }
    &&& merged.subcommands@ == if wrapper.subcommands@.len() == 0 {
        generated.subcommands@
    } else {
        merged_specs(wrapper.subcommands@, generated.subcommands@)
    }
    &&& merged.options@ == if wrapper.options@.len() == 0 {
        generated.options@
    } else {
        merged_options(wrapper.options@, generated.options@)
    }
    &&& merged.persistent_options@ == if wrapper.persistent_options@.len() == 0 {
        generated.persistent_options@
    } else {
        merged_options(wrapper.persistent_options@, generated.persistent_options@)
    }
    &&& merged.args@ == if wrapper.args@.len() == 0 {
        generated.args@
    } else {
        wrapper.args@
    }
    &&& merged.description@ == if generated.description@.len() == 0 {
        wrapper.description@
    } else {
        generated.description@
    }
    &&& merged.additional_suggestions == generated.additional_suggestions
    &&& merged.meta == generated.meta
    &&& merged.load_spec == generated.load_spec
    &&& merged.requires_subcommand == generated.requires_subcommand
    &&& merged.filter_strategy == generated.filter_strategy
    &&& merged.parser_directives == generated.parser_directives
    &&& merged.js_generate_spec == generated.js_generate_spec
    &&& merged.generate_spec_cache_key == generated.generate_spec_cache_key
}

/// Merges a computed spec with the one that asked for it.
pub fn merge_generated_spec(wrapper: &Spec, generated: Spec) -> (merged: Spec)
    ensures
        is_merged(merged, *wrapper, generated),
{
    let names = if wrapper.names.len() == 0 {
        copy_texts(&generated.names)
    } else {
        copy_texts(&wrapper.names)
    };
    let subcommands = if wrapper.subcommands.len() == 0 {
        share_all(&generated.subcommands)
    } else {
        merge_specs(&wrapper.subcommands, &generated.subcommands)
    };
    let options = if wrapper.options.len() == 0 {
        share_all(&generated.options)
    } else {
        merge_options(&wrapper.options, &generated.options)
    };
    let persistent_options = if wrapper.persistent_options.len() == 0 {
        share_all(&generated.persistent_options)
    } else {
        merge_options(&wrapper.persistent_options, &generated.persistent_options)
    };
    let args = if wrapper.args.len() == 0 {
        share_all(&generated.args)
    } else {
        share_all(&wrapper.args)
    };
    let description = if generated.description.as_str().is_empty() {
        wrapper.description.clone()
    } else {
        generated.description.clone()
    };
    Spec { names, subcommands, options, persistent_options, args, description, ..generated }
}

// ---------------------------------------------------------------------------
// Laws
// ---------------------------------------------------------------------------
proof fn lemma_spec_sharing(list: Seq<Arc<Spec>>, names: Seq<Seq<char>>, i: int)
    requires
        0 <= i,
    ensures
        match spec_sharing(list, names, i) {
            Some(k) => i <= k < list.len() && share_a_name(names, texts(list[k].names@)),
            None => forall|k: int|
                i <= k < list.len() ==> !share_a_name(names, texts((#[trigger] list[k]).names@)),
        },
    decreases list.len() - i,
{
    if i < list.len() && !share_a_name(names, texts(list[i].names@)) {
        lemma_spec_sharing(list, names, i + 1);
    }
}

/// Merging never shortens a list, and what comes out is one of the two lists'.
pub proof fn law_merging_only_replaces_or_adds(dest: Seq<Arc<Spec>>, incoming: Seq<Arc<Spec>>)
    ensures
        merged_specs(dest, incoming).len() >= dest.len(),
        forall|i: int|
            0 <= i < merged_specs(dest, incoming).len() ==> dest.contains(
                #[trigger] merged_specs(dest, incoming)[i],
            ) || incoming.contains(merged_specs(dest, incoming)[i]),
    decreases incoming.len(),
{
    if incoming.len() > 0 {
        let rest = incoming.drop_last();
        let last = incoming.last();
        law_merging_only_replaces_or_adds(dest, rest);
        let earlier = merged_specs(dest, rest);
        let merged = merged_specs(dest, incoming);
        lemma_spec_sharing(earlier, texts(last.names@), 0);
        assert(incoming[incoming.len() - 1] == last);
        assert forall|i: int| 0 <= i < merged.len() implies dest.contains(#[trigger] merged[i])
            || incoming.contains(merged[i]) by {
            if i < earlier.len() && merged[i] == earlier[i] {
                if rest.contains(earlier[i]) {
                    let k = rest.index_of(earlier[i]);
                    assert(incoming[k] == earlier[i]);
                }
            }
        }
    } else {
        assert forall|i: int| 0 <= i < dest.len() implies dest.contains(#[trigger] dest[i]) by {}
    }
}

/// A computed subcommand that comes last is there after merging.
pub proof fn law_computed_commands_are_merged_in(dest: Seq<Arc<Spec>>, incoming: Seq<Arc<Spec>>)
    requires
        incoming.len() > 0,
    ensures
        merged_specs(dest, incoming).contains(incoming.last()),
{
    let earlier = merged_specs(dest, incoming.drop_last());
    let merged = merged_specs(dest, incoming);
    lemma_spec_sharing(earlier, texts(incoming.last().names@), 0);
    match spec_sharing(earlier, texts(incoming.last().names@), 0) {
        Some(i) => {
            assert(merged[i] == incoming.last());
        },
        None => {
            assert(merged[earlier.len() as int] == incoming.last());
        },
    }
}

} // verus!
