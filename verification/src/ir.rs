//! Command specs: the static description of commands, and the registry that
//! holds the ones in use.
use std::sync::Arc;
use vstd::prelude::*;

use crate::json::Json;
use crate::text::{holds_text, texts};

verus! {

/// A generator that is built into the engine.
#[derive(Debug, Clone, Copy, PartialEq, Eq, Structural, Hash)]
pub enum Builtin {
    GitRefs,
    GitBranches,
    GitTags,
    GitCommits,
    GitRemotes,
    GitChangedFiles,
    GitStashes,
    GitAliases,
    NpmScripts,
    NpmDeps,
    Cobra,
}

/// A kind of rows that an argument asks for by name.
#[derive(Debug, Clone, Copy, PartialEq, Eq, Structural, Hash)]
pub enum Template {
    Filepaths,
    Folders,
    History,
}

/// How the rows of a command or an argument are filtered.
#[derive(Debug, Clone, Copy, PartialEq, Eq, Structural)]
pub enum FilterStrategy {
    Prefix,
    Fuzzy,
    Default,
}

impl FilterStrategy {
    /// Whether matching is fuzzy, given the user's setting.
    pub open spec fn is_fuzzy(self, user_fuzzy: bool) -> bool {
        match self {
            FilterStrategy::Prefix => false,
            FilterStrategy::Fuzzy => true,
            FilterStrategy::Default => user_fuzzy,
        }
    }

    /// Computes [`FilterStrategy::is_fuzzy`].
    pub fn effective_fuzzy(self, user_fuzzy: bool) -> (fuzzy: bool)
        ensures
            fuzzy == self.is_fuzzy(user_fuzzy),
    {
        match self {
            FilterStrategy::Prefix => false,
            FilterStrategy::Fuzzy => true,
            FilterStrategy::Default => user_fuzzy,
        }
    }
}

/// What a command, option, argument or static row says about its rows.
#[derive(Debug, Default, PartialEq, Eq)]
pub struct SuggestionMeta {
    /// Explicit row type. The surrounding collection supplies a default
    /// (`arg`, `subcommand`, or `option`), but static rows may override it with
    /// values such as `file`, `folder`, or `special`.
    pub suggestion_type: Option<String>,
    /// Type of the row before a wrapper such as auto-execute changed it.
    pub original_type: Option<String>,
    /// The separator behind which the query term begins.
    pub get_query_term: Option<String>,
    /// The hook that computes the query term.
    pub js_get_query_term: Option<String>,
    /// Explicit text to put in the shell buffer.
    pub insert_value: Option<String>,
    /// Text shown in the list in place of the name.
    pub display_name: Option<String>,
    /// Separator to append before the cursor (for example `=` for an option).
    pub separator_to_add: Option<String>,
    /// Explicitly override the automatic trailing-space heuristic.
    pub should_add_space: Option<bool>,
    pub hidden: bool,
    pub priority: Option<i64>,
    pub icon: Option<String>,
    pub is_dangerous: bool,
}

/// A static row of an argument or a command.
#[derive(Debug, Default, PartialEq, Eq)]
pub struct SuggestionSeed {
    pub names: Vec<String>,
    pub description: String,
    /// Preformatted display hint for the row's arguments.
    pub args_hint: String,
    pub meta: SuggestionMeta,
}

/// A reference to another spec: by name or path, or written out.
#[derive(Debug, PartialEq, Eq)]
pub enum LoadSpec {
    Path(String),
    Inline(Arc<Spec>),
}

/// When a generator runs again.
#[derive(Debug, Default, PartialEq, Eq)]
pub struct GeneratorTrigger {
    /// The kind of rule: `function`, `string`, `threshold`, `match` or another
    /// word, which stands for any change of the term.
    pub on: String,
    pub js_trigger: Option<String>,
    pub string: Option<Json>,
    pub length: Option<i64>,
}

/// One source of rows of an argument.
#[derive(Debug, Default, PartialEq, Eq)]
pub struct GeneratorSpec {
    pub templates: Vec<Template>,
    pub script: Vec<String>,
    pub split_on: Option<String>,
    pub js_post_process: Option<String>,
    pub js_custom: Option<String>,
    pub js_script: Option<String>,
    pub cache_key: Option<String>,
    pub cache_by_directory: Option<bool>,
    pub cache_ttl_ms: Option<i64>,
    pub cache_strategy: Option<String>,
    pub script_timeout_ms: Option<i64>,
    pub builtin: Option<Builtin>,
    pub get_query_term: Option<String>,
    pub js_get_query_term: Option<String>,
    pub js_filter_template_suggestions: Option<String>,
    pub trigger: Option<GeneratorTrigger>,
    /// `only` lists folders alone, `never` files alone.
    pub show_folders: Option<String>,
    pub extensions: Vec<String>,
    pub equals: Vec<String>,
    pub filter_folders: Option<bool>,
    pub file_priority: Option<i64>,
    pub folder_priority: Option<i64>,
    pub root_directory: Option<String>,
    pub matches: Option<String>,
    pub matches_flags: Option<String>,
}

/// An argument of a command or an option.
#[derive(Debug, Default, PartialEq, Eq)]
pub struct ArgSpec {
    pub name: String,
    pub description: String,
    pub templates: Vec<Template>,
    pub script: Vec<String>,
    /// Separator between the rows in the script's output.
    pub split_on: Option<String>,
    pub js_post_process: Option<String>,
    pub js_custom: Option<String>,
    pub js_script: Option<String>,
    pub js_get_query_term: Option<String>,
    pub cache_key: Option<String>,
    pub cache_by_directory: Option<bool>,
    pub cache_ttl_ms: Option<i64>,
    pub cache_strategy: Option<String>,
    pub script_timeout_ms: Option<i64>,
    /// Milliseconds to wait before the generators run; absent means at once.
    pub debounce_ms: Option<i64>,
    pub builtin: Option<Builtin>,
    /// Further built-in generators of the same argument.
    pub builtins: Vec<Builtin>,
    /// Generators with settings of their own; absent means the settings above.
    pub generators: Vec<Arc<GeneratorSpec>>,
    pub suggestions: Vec<SuggestionSeed>,
    pub meta: SuggestionMeta,
    pub load_spec: Option<LoadSpec>,
    /// The spec that `load_spec` refers to, once it is known.
    pub resolved_spec: Option<Arc<Spec>>,
    pub is_optional: bool,
    pub is_variadic: bool,
    pub filter_strategy: Option<FilterStrategy>,
    /// Overrides the setting that offers the current token as a row.
    pub suggest_current_token: Option<bool>,
    /// Whether an option may follow a value of this variadic argument.
    pub options_can_break_variadic_arg: Option<bool>,
    /// A completed token loads the spec of the command that it names.
    pub is_command: bool,
    /// Like `is_command`, but paths are resolved by their last part.
    pub is_script: bool,
    /// Prefix that with the token forms the name of a spec.
    pub is_module: Option<String>,
}

/// How the words of a command are parsed.
#[derive(Debug, Default, PartialEq, Eq)]
pub struct ParserDirectives {
    /// Options stop being consumable after a positional argument.
    pub options_must_precede_arguments: Option<bool>,
    /// `-foo` is one long option rather than a chain of short ones.
    pub flags_are_posix_noncompliant: Option<bool>,
    /// Separators of attached option values (`--foo:value`). An empty list
    /// disables attached values.
    pub option_arg_separators: Option<Vec<String>>,
}

/// How often an option says that it may be passed. Comparing a count with a
/// limit that is no integer is the same as comparing it with the integer next
/// above, which [`Repeatable::Count`] holds.
#[derive(Debug, Clone, Copy, PartialEq, Eq, Structural)]
pub enum Repeatable {
    /// Once, or any number of times.
    Flag(bool),
    /// At most this often; zero stands for once.
    Count(i64),
    /// A value of another kind, which stands for once.
    Other,
}

/// An option of a command.
#[derive(Debug, Default, PartialEq, Eq)]
pub struct OptionSpec {
    pub names: Vec<String>,
    pub description: String,
    pub args: Vec<Arc<ArgSpec>>,
    pub meta: SuggestionMeta,
    pub load_spec: Option<LoadSpec>,
    /// `true` asks for the command's separator, a text for that separator.
    pub requires_separator: Option<Json>,
    pub requires_equals: bool,
    pub requires_subcommand: Option<bool>,
    /// Options that become unavailable after this one.
    pub exclusive_on: Vec<String>,
    /// Options that are promoted while they are still missing.
    pub depends_on: Vec<String>,
    /// How often the option may be passed.
    pub is_repeatable: Option<Repeatable>,
    /// The option holds in subcommands too.
    pub is_persistent: bool,
}

/// A command or subcommand.
#[derive(Debug, Default, PartialEq, Eq)]
pub struct Spec {
    pub names: Vec<String>,
    pub description: String,
    pub subcommands: Vec<Arc<Spec>>,
    pub options: Vec<Arc<OptionSpec>>,
    /// Options that hold in this command and its subcommands.
    pub persistent_options: Vec<Arc<OptionSpec>>,
    pub args: Vec<Arc<ArgSpec>>,
    pub additional_suggestions: Vec<SuggestionSeed>,
    pub meta: SuggestionMeta,
    pub load_spec: Option<LoadSpec>,
    pub requires_subcommand: Option<bool>,
    pub filter_strategy: Option<FilterStrategy>,
    pub parser_directives: Option<ParserDirectives>,
    /// The hook that computes the rest of the command.
    pub js_generate_spec: Option<String>,
    pub generate_spec_cache_key: Option<String>,
}

/// The first spec of the list, from `from` on, that has the name.
pub open spec fn spec_named(list: Seq<Arc<Spec>>, name: Seq<char>, from: int) -> Option<int>
    decreases list.len() - from,
{
    if from < 0 || from >= list.len() {
        None
    } else if texts(list[from].names@).contains(name) {
        Some(from)
    } else {
        spec_named(list, name, from + 1)
    }
}

/// Computes [`spec_named`].
pub fn find_named(list: &[Arc<Spec>], name: &str) -> (found: Option<usize>)
    ensures
        match found {
            Some(i) => spec_named(list@, name@, 0) == Some(i as int) && i < list@.len(),
            None => spec_named(list@, name@, 0) is None,
        },
{
    let mut i: usize = 0;
    while i < list.len()
        invariant
            i <= list@.len(),
            spec_named(list@, name@, 0) == spec_named(list@, name@, i as int),
        decreases list@.len() - i,
    {
        if holds_text(&list[i].names, name) {
            return Some(i);
        }
        i += 1;
    }
    None
}

impl Spec {
    /// Whether the command has the name.
    pub fn has_name(&self, name: &str) -> (yes: bool)
        ensures
            yes == texts(self.names@).contains(name@),
    {
        holds_text(&self.names, name)
    }

    /// The first subcommand with the name.
    pub fn find_subcommand(&self, name: &str) -> (found: Option<&Spec>)
        ensures
            match found {
                Some(spec) => spec_named(self.subcommands@, name@, 0) matches Some(i) && *spec
                    == *self.subcommands@[i],
                None => spec_named(self.subcommands@, name@, 0) is None,
            },
    {
        match find_named(&self.subcommands, name) {
            Some(i) => Some(&self.subcommands[i]),
            None => None,
        }
    }
}

} // verus!
