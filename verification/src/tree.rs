//! What specs hold, as mathematical trees, and copies of their nodes.
//!
//! A copy of a node shares what lies below it.
use std::sync::Arc;
use vstd::prelude::*;

use crate::ir::{
    ArgSpec, Builtin, FilterStrategy, GeneratorSpec, LoadSpec, OptionSpec, ParserDirectives,
    Repeatable, Spec, SuggestionMeta, SuggestionSeed, Template,
};
use crate::json::{item_views, member_views, Json, JsonView};
use crate::text::{copy_texts, opt_text, share, texts};

verus! {

// ---------------------------------------------------------------------------
// Rows
// ---------------------------------------------------------------------------
/// What a meta holds.
#[verifier::ext_equal]
pub struct MetaView {
    pub suggestion_type: Option<Seq<char>>,
    pub original_type: Option<Seq<char>>,
    pub get_query_term: Option<Seq<char>>,
    pub js_get_query_term: Option<Seq<char>>,
    pub insert_value: Option<Seq<char>>,
    pub display_name: Option<Seq<char>>,
    pub separator_to_add: Option<Seq<char>>,
    pub should_add_space: Option<bool>,
    pub hidden: bool,
    pub priority: Option<i64>,
    pub icon: Option<Seq<char>>,
    pub is_dangerous: bool,
}

impl View for SuggestionMeta {
    type V = MetaView;

    open spec fn view(&self) -> MetaView {
        MetaView {
            suggestion_type: opt_text(self.suggestion_type),
            original_type: opt_text(self.original_type),
            get_query_term: opt_text(self.get_query_term),
            js_get_query_term: opt_text(self.js_get_query_term),
            insert_value: opt_text(self.insert_value),
            display_name: opt_text(self.display_name),
            separator_to_add: opt_text(self.separator_to_add),
            should_add_space: self.should_add_space,
            hidden: self.hidden,
            priority: self.priority,
            icon: opt_text(self.icon),
            is_dangerous: self.is_dangerous,
        }
    }
}

/// A copy of a meta.
pub fn copy_meta(meta: &SuggestionMeta) -> (copy: SuggestionMeta)
    ensures
        copy@ == meta@,
{
    SuggestionMeta {
        suggestion_type: meta.suggestion_type.clone(),
        original_type: meta.original_type.clone(),
        get_query_term: meta.get_query_term.clone(),
        js_get_query_term: meta.js_get_query_term.clone(),
        insert_value: meta.insert_value.clone(),
        display_name: meta.display_name.clone(),
        separator_to_add: meta.separator_to_add.clone(),
        should_add_space: meta.should_add_space,
        hidden: meta.hidden,
        priority: meta.priority,
        icon: meta.icon.clone(),
        is_dangerous: meta.is_dangerous,
    }
}

/// What a static row holds.
#[verifier::ext_equal]
pub struct SeedView {
    pub names: Seq<Seq<char>>,
    pub description: Seq<char>,
    pub args_hint: Seq<char>,
    pub meta: MetaView,
}

impl View for SuggestionSeed {
    type V = SeedView;

    open spec fn view(&self) -> SeedView {
        SeedView {
            names: texts(self.names@),
            description: self.description@,
            args_hint: self.args_hint@,
            meta: self.meta@,
        }
    }
}

/// What static rows hold.
pub open spec fn seed_views(list: Seq<SuggestionSeed>) -> Seq<SeedView> {
    Seq::new(list.len(), |i: int| list[i]@)
}

/// A copy of static rows.
pub fn copy_seeds(list: &[SuggestionSeed]) -> (out: Vec<SuggestionSeed>)
    ensures
        seed_views(out@) == seed_views(list@),
{
    let ghost stated = seed_views(list@);
    let mut out: Vec<SuggestionSeed> = Vec::new();
    let mut i: usize = 0;
    proof {
        assert(seed_views(out@) =~= stated.take(0));
    }
    while i < list.len()
        invariant
            i <= list@.len(),
            stated == seed_views(list@),
            seed_views(out@) == stated.take(i as int),
        decreases list@.len() - i,
    {
        let seed = &list[i];
        let copy = SuggestionSeed {
            names: copy_texts(&seed.names),
            description: seed.description.clone(),
            args_hint: seed.args_hint.clone(),
            meta: copy_meta(&seed.meta),
        };
        let ghost had = out@;
        let ghost view = copy@;
        out.push(copy);
        i += 1;
        proof {
            assert(seed_views(out@) =~= seed_views(had).push(view));
            assert(stated.take(i as int) =~= stated.take(i - 1).push(view));
        }
    }
    proof {
        assert(stated.take(stated.len() as int) =~= stated);
    }
    out
}

// ---------------------------------------------------------------------------
// JSON values and directives
// ---------------------------------------------------------------------------
proof fn lemma_smaller(value: JsonView)
    ensures
        value matches JsonView::List(items) ==> decreases_to!(value => items),
        value matches JsonView::Object(members) ==> decreases_to!(value => members),
{
    match value {
        JsonView::List(items) => {
            assert(decreases_to!(value => items));
        },
        JsonView::Object(members) => {
            assert(decreases_to!(value => members));
        },
        _ => {},
    }
}

/// A copy of a JSON value.
pub fn copy_json(value: &Json) -> (copy: Json)
    ensures
        copy@ == value@,
    decreases value@,
{
    match value {
        Json::Null => Json::Null,
        Json::Bool(flag) => Json::Bool(*flag),
        Json::Int(number) => Json::Int(*number),
        Json::Number(text) => Json::Number(text.clone()),
        Json::Text(text) => Json::Text(text.clone()),
        Json::List(items) => {
            let mut out: Vec<Json> = Vec::new();
            let mut i: usize = 0;
            let ghost stated = item_views(items@);
            proof {
                crate::json::lemma_list_view(*value, *items);
                lemma_smaller(value@);
                assert(item_views(out@) =~= stated.take(0));
            }
            while i < items.len()
                invariant
                    i <= items@.len(),
                    stated == item_views(items@),
                    decreases_to!(value@ => stated),
                    item_views(out@) == stated.take(i as int),
                decreases items@.len() - i,
            {
                let ghost had = out@;
                proof {
                    assert(decreases_to!(stated => stated[i as int]));
                }
                let item = copy_json(&items[i]);
                out.push(item);
                i += 1;
                proof {
                    assert(item_views(out@) =~= item_views(had).push(stated[i - 1]));
                    assert(stated.take(i as int) =~= stated.take(i - 1).push(stated[i - 1]));
                }
            }
            let copy = Json::List(out);
            proof {
                assert(stated.take(stated.len() as int) =~= stated);
                crate::json::lemma_list_view(copy, copy->List_0);
                crate::json::lemma_list_view(*value, *items);
            }
            copy
        },
        Json::Object(members) => {
            let mut out: Vec<(String, Json)> = Vec::new();
            let mut i: usize = 0;
            let ghost stated = member_views(members@);
            proof {
                crate::json::lemma_object_view(*value, *members);
                lemma_smaller(value@);
                assert(member_views(out@) =~= stated.take(0));
            }
            while i < members.len()
                invariant
                    i <= members@.len(),
                    stated == member_views(members@),
                    decreases_to!(value@ => stated),
                    member_views(out@) == stated.take(i as int),
                decreases members@.len() - i,
            {
                let ghost had = out@;
                proof {
                    assert(decreases_to!(stated => stated[i as int]));
                    assert(decreases_to!(stated[i as int] => stated[i as int].1));
                }
                let member = copy_json(&members[i].1);
                out.push((members[i].0.clone(), member));
                i += 1;
                proof {
                    assert(member_views(out@) =~= member_views(had).push(stated[i - 1]));
                    assert(stated.take(i as int) =~= stated.take(i - 1).push(stated[i - 1]));
                }
            }
            let copy = Json::Object(out);
            proof {
                assert(stated.take(stated.len() as int) =~= stated);
                crate::json::lemma_object_view(copy, copy->Object_0);
                crate::json::lemma_object_view(*value, *members);
            }
            copy
        },
    }
}

/// What an optional JSON value holds.
pub open spec fn opt_json(value: Option<Json>) -> Option<JsonView> {
    match value {
        Some(value) => Some(value@),
        None => None,
    }
}

fn copy_opt_json(value: &Option<Json>) -> (copy: Option<Json>)
    ensures
        opt_json(copy) == opt_json(*value),
{
    match value {
        Some(value) => Some(copy_json(value)),
        None => None,
    }
}

/// What parser directives hold.
#[verifier::ext_equal]
pub struct OwnDirectives {
    pub options_must_precede_arguments: Option<bool>,
    pub flags_are_posix_noncompliant: Option<bool>,
    pub option_arg_separators: Option<Seq<Seq<char>>>,
}

/// What optional directives hold.
pub open spec fn opt_directives(directives: Option<ParserDirectives>) -> Option<OwnDirectives> {
    match directives {
        Some(d) => Some(
            OwnDirectives {
                options_must_precede_arguments: d.options_must_precede_arguments,
                flags_are_posix_noncompliant: d.flags_are_posix_noncompliant,
                option_arg_separators: match d.option_arg_separators {
                    Some(list) => Some(texts(list@)),
                    None => None,
                },
            },
        ),
        None => None,
    }
}

fn copy_directives(directives: &Option<ParserDirectives>) -> (copy: Option<ParserDirectives>)
    ensures
        opt_directives(copy) == opt_directives(*directives),
{
    match directives {
        Some(d) => {
            let separators: Option<Vec<String>> = match &d.option_arg_separators {
                Some(list) => Some(copy_texts(list)),
                None => None,
            };
            Some(
                ParserDirectives {
                    options_must_precede_arguments: d.options_must_precede_arguments,
                    flags_are_posix_noncompliant: d.flags_are_posix_noncompliant,
                    option_arg_separators: separators,
                },
            )
        },
        None => None,
    }
}

// ---------------------------------------------------------------------------
// Commands, options and arguments
// ---------------------------------------------------------------------------
/// What a reference holds.
pub enum LoadView {
    Path(Seq<char>),
    Inline(Box<SpecView>),
}

/// What an argument holds.
#[verifier::ext_equal]
pub struct ArgView {
    pub name: Seq<char>,
    pub description: Seq<char>,
    pub templates: Seq<Template>,
    pub script: Seq<Seq<char>>,
    pub split_on: Option<Seq<char>>,
    pub js_post_process: Option<Seq<char>>,
    pub js_custom: Option<Seq<char>>,
    pub js_script: Option<Seq<char>>,
    pub js_get_query_term: Option<Seq<char>>,
    pub cache_key: Option<Seq<char>>,
    pub cache_by_directory: Option<bool>,
    pub cache_ttl_ms: Option<i64>,
    pub cache_strategy: Option<Seq<char>>,
    pub script_timeout_ms: Option<i64>,
    pub debounce_ms: Option<i64>,
    pub builtin: Option<Builtin>,
    pub builtins: Seq<Builtin>,
    pub generators: Seq<Arc<GeneratorSpec>>,
    pub suggestions: Seq<SeedView>,
    pub meta: MetaView,
    pub load_spec: Option<LoadView>,
    pub resolved_spec: Option<SpecView>,
    pub is_optional: bool,
    pub is_variadic: bool,
    pub filter_strategy: Option<FilterStrategy>,
    pub suggest_current_token: Option<bool>,
    pub options_can_break_variadic_arg: Option<bool>,
    pub is_command: bool,
    pub is_script: bool,
    pub is_module: Option<Seq<char>>,
}

/// What an option holds.
#[verifier::ext_equal]
pub struct OptionView {
    pub names: Seq<Seq<char>>,
    pub description: Seq<char>,
    pub args: Seq<ArgView>,
    pub meta: MetaView,
    pub load_spec: Option<LoadView>,
    pub requires_separator: Option<JsonView>,
    pub requires_equals: bool,
    pub requires_subcommand: Option<bool>,
    pub exclusive_on: Seq<Seq<char>>,
    pub depends_on: Seq<Seq<char>>,
    pub is_repeatable: Option<Repeatable>,
    pub is_persistent: bool,
}

/// What a command holds.
#[verifier::ext_equal]
pub struct SpecView {
    pub names: Seq<Seq<char>>,
    pub description: Seq<char>,
    pub subcommands: Seq<SpecView>,
    pub options: Seq<OptionView>,
    pub persistent_options: Seq<OptionView>,
    pub args: Seq<ArgView>,
    pub additional_suggestions: Seq<SeedView>,
    pub meta: MetaView,
    pub load_spec: Option<LoadView>,
    pub requires_subcommand: Option<bool>,
    pub filter_strategy: Option<FilterStrategy>,
    pub parser_directives: Option<OwnDirectives>,
    pub js_generate_spec: Option<Seq<char>>,
    pub generate_spec_cache_key: Option<Seq<char>>,
}

/// What a reference holds.
pub open spec fn load_view(load: Option<LoadSpec>) -> Option<LoadView>
    decreases load,
{
    match load {
        Some(LoadSpec::Path(path)) => Some(LoadView::Path(path@)),
        Some(LoadSpec::Inline(spec)) => Some(LoadView::Inline(Box::new(spec_view(*spec)))),
        None => None,
    }
}

/// What an argument holds.
pub open spec fn arg_view(arg: ArgSpec) -> ArgView
    decreases arg,
{
    ArgView {
        name: arg.name@,
        description: arg.description@,
        templates: arg.templates@,
        script: texts(arg.script@),
        split_on: opt_text(arg.split_on),
        js_post_process: opt_text(arg.js_post_process),
        js_custom: opt_text(arg.js_custom),
        js_script: opt_text(arg.js_script),
        js_get_query_term: opt_text(arg.js_get_query_term),
        cache_key: opt_text(arg.cache_key),
        cache_by_directory: arg.cache_by_directory,
        cache_ttl_ms: arg.cache_ttl_ms,
        cache_strategy: opt_text(arg.cache_strategy),
        script_timeout_ms: arg.script_timeout_ms,
        debounce_ms: arg.debounce_ms,
        builtin: arg.builtin,
        builtins: arg.builtins@,
        generators: arg.generators@,
        suggestions: seed_views(arg.suggestions@),
        meta: arg.meta@,
        load_spec: load_view(arg.load_spec),
        resolved_spec: match arg.resolved_spec {
            Some(spec) => Some(spec_view(*spec)),
            None => None,
        },
        is_optional: arg.is_optional,
        is_variadic: arg.is_variadic,
        filter_strategy: arg.filter_strategy,
        suggest_current_token: arg.suggest_current_token,
        options_can_break_variadic_arg: arg.options_can_break_variadic_arg,
        is_command: arg.is_command,
        is_script: arg.is_script,
        is_module: opt_text(arg.is_module),
    }
}

/// What arguments hold.
pub open spec fn arg_views(list: Vec<Arc<ArgSpec>>) -> Seq<ArgView>
    decreases list,
{
    Seq::new(
        list@.len(),
        |i: int|
            if 0 <= i < list@.len() {
                arg_view(*list@[i])
            } else {
                arbitrary()
            },
    )
}

/// What an option holds.
pub open spec fn option_view(option: OptionSpec) -> OptionView
    decreases option,
{
    OptionView {
        names: texts(option.names@),
        description: option.description@,
        args: arg_views(option.args),
        meta: option.meta@,
        load_spec: load_view(option.load_spec),
        requires_separator: opt_json(option.requires_separator),
        requires_equals: option.requires_equals,
        requires_subcommand: option.requires_subcommand,
        exclusive_on: texts(option.exclusive_on@),
        depends_on: texts(option.depends_on@),
        is_repeatable: option.is_repeatable,
        is_persistent: option.is_persistent,
    }
}

/// What options hold.
pub open spec fn option_views(list: Vec<Arc<OptionSpec>>) -> Seq<OptionView>
    decreases list,
{
    Seq::new(
        list@.len(),
        |i: int|
            if 0 <= i < list@.len() {
                option_view(*list@[i])
            } else {
                arbitrary()
            },
    )
}

/// What a command holds.
pub open spec fn spec_view(spec: Spec) -> SpecView
    decreases spec,
{
    SpecView {
        names: texts(spec.names@),
        description: spec.description@,
        subcommands: spec_views(spec.subcommands),
        options: option_views(spec.options),
        persistent_options: option_views(spec.persistent_options),
        args: arg_views(spec.args),
        additional_suggestions: seed_views(spec.additional_suggestions@),
        meta: spec.meta@,
        load_spec: load_view(spec.load_spec),
        requires_subcommand: spec.requires_subcommand,
        filter_strategy: spec.filter_strategy,
        parser_directives: opt_directives(spec.parser_directives),
        js_generate_spec: opt_text(spec.js_generate_spec),
        generate_spec_cache_key: opt_text(spec.generate_spec_cache_key),
    }
}

/// What commands hold.
pub open spec fn spec_views(list: Vec<Arc<Spec>>) -> Seq<SpecView>
    decreases list,
{
    Seq::new(
        list@.len(),
        |i: int|
            if 0 <= i < list@.len() {
                spec_view(*list@[i])
            } else {
                arbitrary()
            },
    )
}

// ---------------------------------------------------------------------------
// Copies
// ---------------------------------------------------------------------------
/// A copy of a reference.
pub fn copy_load(load: &Option<LoadSpec>) -> (copy: Option<LoadSpec>)
    ensures
        load_view(copy) == load_view(*load),
        copy is Some == load is Some,
{
    match load {
        Some(LoadSpec::Path(path)) => Some(LoadSpec::Path(path.clone())),
        Some(LoadSpec::Inline(spec)) => Some(LoadSpec::Inline(share(spec))),
        None => None,
    }
}

/// Shares the items of a list.
pub fn share_all<T>(list: &[Arc<T>]) -> (out: Vec<Arc<T>>)
    ensures
        out@ == list@,
{
    let mut out: Vec<Arc<T>> = Vec::new();
    let mut i: usize = 0;
    while i < list.len()
        invariant
            i <= list@.len(),
            out@ == list@.take(i as int),
        decreases list@.len() - i,
    {
        out.push(share(&list[i]));
        i += 1;
    }
    proof {
        assert(list@.take(list@.len() as int) =~= list@);
    }
    out
}

fn copy_small<T: Copy>(list: &[T]) -> (out: Vec<T>)
    ensures
        out@ == list@,
{
    let mut out: Vec<T> = Vec::new();
    let mut i: usize = 0;
    while i < list.len()
        invariant
            i <= list@.len(),
            out@ == list@.take(i as int),
        decreases list@.len() - i,
    {
        out.push(list[i]);
        i += 1;
    }
    proof {
        assert(list@.take(list@.len() as int) =~= list@);
    }
    out
}

/// A copy of an argument.
pub fn copy_arg(arg: &ArgSpec) -> (copy: ArgSpec)
    ensures
        arg_view(copy) == arg_view(*arg),
{
    let resolved_spec: Option<Arc<Spec>> = match &arg.resolved_spec {
        Some(spec) => Some(share(spec)),
        None => None,
    };
    let copy = ArgSpec {
        name: arg.name.clone(),
        description: arg.description.clone(),
        templates: copy_small(&arg.templates),
        script: copy_texts(&arg.script),
        split_on: arg.split_on.clone(),
        js_post_process: arg.js_post_process.clone(),
        js_custom: arg.js_custom.clone(),
        js_script: arg.js_script.clone(),
        js_get_query_term: arg.js_get_query_term.clone(),
        cache_key: arg.cache_key.clone(),
        cache_by_directory: arg.cache_by_directory,
        cache_ttl_ms: arg.cache_ttl_ms,
        cache_strategy: arg.cache_strategy.clone(),
        script_timeout_ms: arg.script_timeout_ms,
        debounce_ms: arg.debounce_ms,
        builtin: arg.builtin,
        builtins: copy_small(&arg.builtins),
        generators: share_all(&arg.generators),
        suggestions: copy_seeds(&arg.suggestions),
        meta: copy_meta(&arg.meta),
        load_spec: copy_load(&arg.load_spec),
        resolved_spec,
        is_optional: arg.is_optional,
        is_variadic: arg.is_variadic,
        filter_strategy: arg.filter_strategy,
        suggest_current_token: arg.suggest_current_token,
        options_can_break_variadic_arg: arg.options_can_break_variadic_arg,
        is_command: arg.is_command,
        is_script: arg.is_script,
        is_module: arg.is_module.clone(),
    };
    proof {
        assert(arg_view(copy) =~= arg_view(*arg));
    }
    copy
}

/// A copy of an option with other arguments.
pub fn copy_option_with(option: &OptionSpec, args: Vec<Arc<ArgSpec>>) -> (copy: OptionSpec)
    ensures
        option_view(copy) == (OptionView { args: arg_views(args), ..option_view(*option) }),
{
    let copy = OptionSpec {
        names: copy_texts(&option.names),
        description: option.description.clone(),
        args,
        meta: copy_meta(&option.meta),
        load_spec: copy_load(&option.load_spec),
        requires_separator: copy_opt_json(&option.requires_separator),
        requires_equals: option.requires_equals,
        requires_subcommand: option.requires_subcommand,
        exclusive_on: copy_texts(&option.exclusive_on),
        depends_on: copy_texts(&option.depends_on),
        is_repeatable: option.is_repeatable,
        is_persistent: option.is_persistent,
    };
    proof {
        assert(option_view(copy) =~= (OptionView {
            args: arg_views(args),
            ..option_view(*option)
        }));
    }
    copy
}

/// Lists with the same items hold the same.
pub proof fn lemma_same_items(spec: Vec<Arc<Spec>>, other: Vec<Arc<Spec>>)
    requires
        spec@ == other@,
    ensures
        spec_views(spec) == spec_views(other),
{
    assert(spec_views(spec) =~= spec_views(other));
}

proof fn lemma_same_options(list: Vec<Arc<OptionSpec>>, other: Vec<Arc<OptionSpec>>)
    requires
        list@ == other@,
    ensures
        option_views(list) == option_views(other),
{
    assert(option_views(list) =~= option_views(other));
}

proof fn lemma_same_args(list: Vec<Arc<ArgSpec>>, other: Vec<Arc<ArgSpec>>)
    requires
        list@ == other@,
    ensures
        arg_views(list) == arg_views(other),
{
    assert(arg_views(list) =~= arg_views(other));
}

/// A copy of a command.
pub fn copy_spec(spec: &Spec) -> (copy: Spec)
    ensures
        spec_view(copy) == spec_view(*spec),
{
    let copy = Spec {
        names: copy_texts(&spec.names),
        description: spec.description.clone(),
        subcommands: share_all(&spec.subcommands),
        options: share_all(&spec.options),
        persistent_options: share_all(&spec.persistent_options),
        args: share_all(&spec.args),
        additional_suggestions: copy_seeds(&spec.additional_suggestions),
        meta: copy_meta(&spec.meta),
        load_spec: copy_load(&spec.load_spec),
        requires_subcommand: spec.requires_subcommand,
        filter_strategy: spec.filter_strategy,
        parser_directives: copy_directives(&spec.parser_directives),
        js_generate_spec: spec.js_generate_spec.clone(),
        generate_spec_cache_key: spec.generate_spec_cache_key.clone(),
    };
    proof {
        lemma_same_items(copy.subcommands, spec.subcommands);
        lemma_same_options(copy.options, spec.options);
        lemma_same_options(copy.persistent_options, spec.persistent_options);
        lemma_same_args(copy.args, spec.args);
        assert(spec_view(copy) =~= spec_view(*spec));
    }
    copy
}

} // verus!
