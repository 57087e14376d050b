//! The engine, driven from a directory in memory.
use std::sync::Arc;

use ec_engine::engine::Engine;
use ec_engine::filegen::expand::Places;
use ec_engine::filegen::list::DirEntry;
use ec_engine::generate::ask::{Ask, Reply};
use ec_engine::generate::run::{
    effective_generators, generate_for_arg_with_history, take_pending_generators, GeneratorSession,
};
use ec_engine::generate::shape::trim_parts;
use ec_engine::generate::source::GenerateInput;
use ec_engine::history::{ArgSlot, HistoryStore};
use ec_engine::index::{index_key, read_index, IrIndex};
use ec_engine::ir::{
    FilterStrategy, GeneratorSpec, GeneratorTrigger, LoadSpec, ParserDirectives, Repeatable,
    SuggestionMeta, SuggestionSeed,
};
use ec_engine::js_host::fig::merge_generated_spec;
use ec_engine::js_host::hook::{
    generate_spec_program, hook_path, post_process, script_command, spec_from_reply, Interpreter,
};
use ec_engine::js_host::keep::{
    cached_script_output, cached_spec, cached_suggestions, key_for, owned_cache_policy, script_cache_fallback,
    KeptResults,
};
use ec_engine::json::Json;
use ec_engine::lookup::complete::{complete as look_up, CompleteAnswers, GeneratedRows, Missing};
use ec_engine::lookup::walk::{generate_spec_key, Need, SpecAnswers};
use ec_engine::rank::frecency::Frecency;
use ec_engine::references::{load_spec_file, Library};
use ec_engine::registry::LoadStep;
use ec_engine::settings::Settings;
use ec_engine::text::lines;
use ec_engine::{
    ArgSpec, Builtin, CompleteRequest, CompleteResult, OptionSpec, Registry, Spec, Suggestion,
    Template,
};
use ec_engine::lookup::active::{resolve_context, ActiveArg};
use ec_engine::lookup::auto_execute::{
    add_current_token_auto_execute, add_exact_auto_execute, add_space_auto_execute,
};
use ec_engine::lookup::candidates::{
    args_hint, hidden_item_is_visible, select_named_candidate,
};
use ec_engine::lookup::complete::{command_is_disabled_from, suggest_current_token_for};
use ec_engine::lookup::shell::is_fresh_command_position;
use ec_engine::lookup::walk::command_lookup_name;
use ec_engine::{current_command_slice, tokenize};
use ec_engine::ranking_root_command;
use ec_engine::runtime::{history_loading_enabled, query_term_for, should_merge_history};
use ec_engine::generate::cache::MtimeLru;
use ec_engine::generate::run::{generate as generate_rows_for, generator_arg_id, PendingGenerators};
use ec_engine::generate::seeds::path_row_already_includes_directory_prefix;
use ec_engine::generate::shape::{
    branch_lines_to_suggestions, filter_split, gitdir_candidates, parse_git_alias,
};
use ec_engine::generate::trigger::{
    effective_script_timeout_ms, last_index, should_trigger, DEFAULT_SCRIPT_TIMEOUT_MS,
};
use ec_engine::history::{copy_slot, parse_alias_map};
use ec_engine::generate::run::GenerateNeed;
use ec_engine::tree::copy_spec;
use serde_json::Value;

// ---------------------------------------------------------------------------
// Specs from JSON
// ---------------------------------------------------------------------------
fn text(value: &Value, key: &str) -> Option<String> {
    value.get(key).and_then(Value::as_str).map(str::to_owned)
}

fn flag(value: &Value, key: &str) -> bool {
    value.get(key).and_then(Value::as_bool).unwrap_or(false)
}

fn number_at(value: &Value, key: &str) -> Option<i64> {
    value.get(key).and_then(Value::as_i64)
}

fn items(value: &Value, key: &str) -> Vec<Value> {
    value.get(key).and_then(Value::as_array).cloned().unwrap_or_default()
}

fn texts(value: &Value, key: &str) -> Vec<String> {
    items(value, key).iter().filter_map(Value::as_str).map(str::to_owned).collect()
}

fn json(value: &Value) -> Json {
    match value {
        Value::Null => Json::Null,
        Value::Bool(flag) => Json::Bool(*flag),
        Value::Number(number) => match number.as_i64() {
            Some(value) => Json::Int(value),
            None => Json::Number(number.to_string()),
        },
        Value::String(text) => Json::Text(text.clone()),
        Value::Array(items) => Json::List(items.iter().map(json).collect()),
        Value::Object(members) => Json::Object(
            members.iter().map(|(key, value)| (key.clone(), json(value))).collect(),
        ),
    }
}

fn meta_of(value: &Value) -> SuggestionMeta {
    SuggestionMeta {
        suggestion_type: text(value, "type"),
        original_type: text(value, "originalType"),
        get_query_term: text(value, "getQueryTerm"),
        js_get_query_term: text(value, "jsGetQueryTerm"),
        insert_value: text(value, "insertValue"),
        display_name: text(value, "displayName"),
        separator_to_add: text(value, "separatorToAdd"),
        should_add_space: value.get("shouldAddSpace").and_then(Value::as_bool),
        hidden: flag(value, "hidden"),
        priority: number_at(value, "priority"),
        icon: text(value, "icon"),
        is_dangerous: flag(value, "isDangerous"),
    }
}

fn seed_of(value: &Value) -> SuggestionSeed {
    SuggestionSeed {
        names: texts(value, "names"),
        description: text(value, "description").unwrap_or_default(),
        args_hint: text(value, "argsHint").unwrap_or_default(),
        meta: meta_of(value),
    }
}

fn strategy_of(value: &Value) -> Option<FilterStrategy> {
    match text(value, "filterStrategy").as_deref() {
        Some("prefix") => Some(FilterStrategy::Prefix),
        Some("fuzzy") => Some(FilterStrategy::Fuzzy),
        Some("default") => Some(FilterStrategy::Default),
        _ => None,
    }
}

fn load_of(value: &Value) -> Option<LoadSpec> {
    match value.get("loadSpec") {
        Some(Value::String(path)) => Some(LoadSpec::Path(path.clone())),
        Some(inline @ Value::Object(_)) => Some(LoadSpec::Inline(Arc::new(spec_of(inline)))),
        _ => None,
    }
}

fn templates_of(value: &Value) -> Vec<Template> {
    texts(value, "templates")
        .iter()
        .map(|name| match name.as_str() {
            "filepaths" => Template::Filepaths,
            "folders" => Template::Folders,
            _ => Template::History,
        })
        .collect()
}

fn arg_of(value: &Value) -> ArgSpec {
    ArgSpec {
        name: text(value, "name").unwrap_or_default(),
        description: text(value, "description").unwrap_or_default(),
        templates: templates_of(value),
        script: texts(value, "script"),
        split_on: text(value, "splitOn"),
        builtin: match text(value, "builtin").as_deref() {
            Some("npm-scripts") => Some(Builtin::NpmScripts),
            _ => None,
        },
        suggestions: items(value, "suggestions").iter().map(seed_of).collect(),
        meta: meta_of(value),
        load_spec: load_of(value),
        is_optional: flag(value, "isOptional"),
        is_variadic: flag(value, "isVariadic"),
        filter_strategy: strategy_of(value),
        suggest_current_token: value.get("suggestCurrentToken").and_then(Value::as_bool),
        options_can_break_variadic_arg: value
            .get("optionsCanBreakVariadicArg")
            .and_then(Value::as_bool),
        is_command: flag(value, "isCommand"),
        is_script: flag(value, "isScript"),
        is_module: text(value, "isModule"),
        ..ArgSpec::default()
    }
}

fn option_of(value: &Value) -> OptionSpec {
    OptionSpec {
        names: texts(value, "names"),
        description: text(value, "description").unwrap_or_default(),
        args: items(value, "args").iter().map(|arg| Arc::new(arg_of(arg))).collect(),
        meta: meta_of(value),
        load_spec: load_of(value),
        requires_separator: value.get("requiresSeparator").map(json),
        requires_equals: flag(value, "requiresEquals"),
        requires_subcommand: value.get("requiresSubcommand").and_then(Value::as_bool),
        exclusive_on: texts(value, "exclusiveOn"),
        depends_on: texts(value, "dependsOn"),
        is_repeatable: match value.get("isRepeatable") {
            Some(Value::Bool(flag)) => Some(Repeatable::Flag(*flag)),
            Some(Value::Number(number)) => number.as_i64().map(Repeatable::Count),
            Some(_) => Some(Repeatable::Other),
            None => None,
        },
        is_persistent: flag(value, "isPersistent"),
    }
}

fn directives_of(value: &Value) -> Option<ParserDirectives> {
    let inner = value.get("parserDirectives")?;
    Some(ParserDirectives {
        options_must_precede_arguments: inner
            .get("optionsMustPrecedeArguments")
            .and_then(Value::as_bool),
        flags_are_posix_noncompliant: inner
            .get("flagsArePosixNoncompliant")
            .and_then(Value::as_bool),
        option_arg_separators: inner
            .get("optionArgSeparators")
            .map(|_| texts(inner, "optionArgSeparators")),
    })
}

fn spec_of(value: &Value) -> Spec {
    Spec {
        names: texts(value, "names"),
        description: text(value, "description").unwrap_or_default(),
        subcommands: items(value, "subcommands").iter().map(|s| Arc::new(spec_of(s))).collect(),
        options: items(value, "options").iter().map(|o| Arc::new(option_of(o))).collect(),
        persistent_options: items(value, "persistentOptions")
            .iter()
            .map(|o| Arc::new(option_of(o)))
            .collect(),
        args: items(value, "args").iter().map(|a| Arc::new(arg_of(a))).collect(),
        additional_suggestions: items(value, "additionalSuggestions").iter().map(seed_of).collect(),
        meta: meta_of(value),
        load_spec: load_of(value),
        requires_subcommand: value.get("requiresSubcommand").and_then(Value::as_bool),
        filter_strategy: strategy_of(value),
        parser_directives: directives_of(value),
        js_generate_spec: text(value, "jsGenerateSpec"),
        generate_spec_cache_key: text(value, "generateSpecCacheKey"),
    }
}

// ---------------------------------------------------------------------------
// A directory in memory
// ---------------------------------------------------------------------------
struct Disk {
    files: Vec<(String, String)>,
    dirs: Vec<String>,
}

impl Disk {
    fn new() -> Disk {
        Disk { files: Vec::new(), dirs: Vec::new() }
    }

    fn cwd(&self) -> String {
        "/work".to_owned()
    }

    fn create_dir(&mut self, path: &str) {
        self.dirs.push(path.to_owned());
    }

    fn write(&mut self, path: &str, text: &str) {
        if let Some((dir, _)) = path.rsplit_once('/') {
            if !self.dirs.iter().any(|known| known == dir) {
                self.create_dir(dir);
            }
        }
        self.files.retain(|(known, _)| known != path);
        self.files.push((path.to_owned(), text.to_owned()));
    }

    fn write_spec(&mut self, name: &str, text: &str) {
        self.write(&format!("{name}.json"), text);
    }

    fn read(&self, path: &str) -> Option<&str> {
        let relative = path.strip_prefix("/work/").unwrap_or(path);
        self.files.iter().find(|(known, _)| known == relative).map(|(_, text)| text.as_str())
    }

    fn entries(&self, dir: &str) -> Option<Vec<DirEntry>> {
        let dir = dir.trim_end_matches('/');
        let below = match dir.strip_prefix("/work") {
            Some(below) => below.trim_start_matches('/').to_owned(),
            None => return None,
        };
        if !below.is_empty() && !self.dirs.contains(&below) {
            return None;
        }
        let child = |path: &str| -> Option<String> {
            let name = match below.is_empty() {
                true => path,
                false => path.strip_prefix(&below)?.strip_prefix('/')?,
            };
            match name.contains('/') || name.is_empty() {
                true => None,
                false => Some(name.to_owned()),
            }
        };
        let mut out: Vec<DirEntry> = Vec::new();
        for path in &self.dirs {
            if let Some(name) = child(path) {
                out.push(DirEntry { name, is_dir: true });
            }
        }
        for (path, _) in &self.files {
            if let Some(name) = child(path) {
                out.push(DirEntry { name, is_dir: false });
            }
        }
        Some(out)
    }
}

// ---------------------------------------------------------------------------
// The outside
// ---------------------------------------------------------------------------
/// Answers what the engine asks from a directory in memory and from commands
/// whose outputs are known.
struct World {
    disk: Disk,
    registry: Registry,
    library: Library,
    engine: Option<Engine>,
    session: GeneratorSession,
    host: bool,
    host_cwd: String,
    outputs: Vec<(String, String)>,
    custom: Vec<(String, Vec<Suggestion>)>,
    runs: usize,
    kept_outputs: KeptResults<String>,
    kept_rows: KeptResults<Vec<Suggestion>>,
    kept_specs: KeptResults<Arc<Spec>>,
    interpreter: Interpreter,
    pending: (bool, Option<i64>),
}

fn registry_of(disk: &Disk) -> (Registry, Library) {
    let mut index: Vec<(String, String)> = Vec::new();
    let mut specs: Vec<(String, Arc<Spec>)> = Vec::new();
    for (path, text) in &disk.files {
        if path.ends_with(".json") && path != "index.json" && path != "package.json" {
            let value: Value = serde_json::from_str(text).expect("spec");
            specs.push((format!("/work/{path}"), Arc::new(spec_of(&value))));
        }
    }
    let index_file = disk.read("index.json").map(|text| {
        let value: Value = serde_json::from_str(text).expect("index");
        let files = value.get("files").and_then(Value::as_object).map(|files| {
            files
                .iter()
                .map(|(name, path)| (name.clone(), path.as_str().expect("path").to_owned()))
                .collect()
        });
        IrIndex { files }
    });
    let files = index_file.map(|index| read_index(&index));
    let mapped = matches!(files, Some(Some(_)));
    let mut registry = Registry::with_root("/work".to_owned(), mapped);
    if let Some(Some(files)) = files {
        for (name, relative) in files {
            if disk.read(&relative).is_some() {
                registry.remember_file(&name, &format!("/work/{relative}"));
                index.push((name, format!("/work/{relative}")));
            }
        }
    }
    if !mapped {
        for (path, _) in &disk.files {
            if path == "package.json" {
                continue;
            }
            if let Some(key) = index_key(path) {
                registry.add_file(&key, &format!("/work/{path}"));
                index.push((key, format!("/work/{path}")));
            }
        }
    }
    registry.rebuild_names();
    (registry, Library { root: "/work".to_owned(), index, specs })
}

impl World {
    fn load(disk: Disk) -> World {
        let (registry, library) = registry_of(&disk);
        World {
            disk,
            registry,
            library,
            engine: None,
            session: GeneratorSession::default(),
            host: false,
            host_cwd: String::new(),
            outputs: Vec::new(),
            custom: Vec::new(),
            runs: 0,
            kept_outputs: KeptResults::new(),
            kept_rows: KeptResults::new(),
            kept_specs: KeptResults::new(),
            interpreter: Interpreter::open().expect("interpreter"),
            pending: (false, None),
        }
    }

    fn with_frecency(disk: Disk, frecency: Frecency) -> World {
        let mut world = World::load(disk);
        world.host = true;
        world.engine = Some(Engine::new_with_frecency(world.registry.copied(), frecency));
        world
    }

    fn get(&mut self, name: &str) -> Option<Arc<Spec>> {
        if let LoadStep::Read(path) = self.registry.ensure_loaded(name) {
            if let Some(spec) = load_spec_file(&path, &self.library) {
                self.registry.finish_load(name, &path, spec);
            }
        }
        self.registry.get_arc(name)
    }

    fn hook(&self, id: &str) -> Option<String> {
        self.disk.read(&hook_path("/work/hooks", id)).map(str::to_owned)
    }

    fn run(&mut self, command: &str, args: &[String]) -> String {
        self.runs += 1;
        let line = format!("{command} {}", args.join(" "));
        if let Some((_, output)) = self.outputs.iter().find(|(known, _)| *known == line) {
            return output.clone();
        }
        if command == "printf" && args.len() == 1 {
            return args[0].replace("\\n", "\n");
        }
        String::new()
    }

    fn answer(&mut self, ask: &Ask, generator: &GeneratorSpec, tokens: &[String], cwd: &str) -> Reply {
        match ask {
            Ask::Git { args, .. } => {
                let line = format!("git {}", args.join(" "));
                let known = self.outputs.iter().find(|(known, _)| *known == line);
                Reply::Output(known.map(|(_, output)| output.clone()))
            },
            Ask::Refs { args, .. } => {
                let output = self.run("git", args);
                Reply::Lines(Some(trim_parts(&lines(&output))))
            },
            Ask::Package => {
                Reply::Bytes(self.disk.read("package.json").map(|text| text.as_bytes().to_vec()))
            },
            Ask::Cobra => Reply::Rows(None),
            Ask::ScriptCommand { hook } => Reply::Command(match self.hook(hook) {
                Some(source) => script_command(&self.interpreter, &source, tokens, 5000),
                None => None,
            }),
            Ask::Script { command, args, .. } => {
                let policy = owned_cache_policy(generator, false);
                let words = script_cache_fallback(command, args, cwd);
                let key = match &policy {
                    Some(policy) => key_for("script", policy, cwd, &words),
                    None => String::new(),
                };
                let kept = cached_script_output(
                    &mut self.kept_outputs,
                    policy.as_ref(),
                    &key,
                    0,
                    None,
                );
                if kept.is_some() {
                    return Reply::Output(kept);
                }
                let fresh = self.run(command, args);
                Reply::Output(cached_script_output(
                    &mut self.kept_outputs,
                    policy.as_ref(),
                    &key,
                    0,
                    Some(fresh),
                ))
            },
            Ask::PostProcess { hook, stdout } => Reply::Rows(match self.hook(hook) {
                Some(source) => post_process(&self.interpreter, &source, stdout, tokens, 5000),
                None => None,
            }),
            Ask::Custom { hook, .. } => {
                let policy = owned_cache_policy(generator, false);
                let key = match &policy {
                    Some(policy) => key_for("custom", policy, cwd, tokens),
                    None => String::new(),
                };
                let kept =
                    cached_suggestions(&mut self.kept_rows, policy.as_ref(), &key, 0, None);
                if kept.is_some() {
                    return Reply::Rows(kept);
                }
                self.runs += 1;
                let fresh = self
                    .custom
                    .iter()
                    .find(|(known, _)| known == hook)
                    .map(|(_, rows)| rows.clone())
                    .unwrap_or_default();
                Reply::Rows(cached_suggestions(
                    &mut self.kept_rows,
                    policy.as_ref(),
                    &key,
                    0,
                    Some(fresh),
                ))
            },
            Ask::Directory { path } => Reply::Entries(self.disk.entries(path)),
            Ask::FilterTemplates { .. } => Reply::Rows(None),
        }
    }

    fn generate_rows(
        &mut self,
        arg: &ArgSpec,
        tokens: &[String],
        query: &str,
        search_term: &str,
        cwd: &str,
        fuzzy: bool,
        history: &[String],
    ) -> Vec<Suggestion> {
        let places = Places::default();
        let mut replies: Vec<Reply> = Vec::new();
        let host_cwd = self.host_cwd.clone();
        loop {
            let input = GenerateInput {
                tokens,
                search_term,
                cwd,
                fuzzy,
                history_values: history,
                configured_timeout_ms: 5000,
                host_cwd: match self.host {
                    true => Some(host_cwd.as_str()),
                    false => None,
                },
                hooks: None,
                environment: &[],
                places: &places,
                triggers: &[],
                replies: &replies,
            };
            match generate_for_arg_with_history(&input, arg, query, &self.session) {
                Ok(mut done) => {
                    self.session = done.session;
                    self.pending = take_pending_generators(&mut done.pending);
                    return done.rows;
                },
                Err(asked) => {
                    let reply = self.answer(&asked.ask, &asked.generator, tokens, cwd);
                    replies.push(reply);
                },
            }
        }
    }

    /// Runs a spec's hook, unless its result was kept. A command that the hook
    /// runs is noted on the interpreter's global object.
    fn run_generate_spec(
        &mut self,
        spec: &Arc<Spec>,
        tokens: &[String],
        cwd: &str,
    ) -> Option<Arc<Spec>> {
        let id = spec.js_generate_spec.clone()?;
        let key = generate_spec_key(tokens, cwd, spec);
        let computed = match cached_spec(&mut self.kept_specs, &key, 0, None) {
            Some(kept) => kept,
            None => {
                let source = self.hook(&id)?;
                self.eval(
                    "globalThis.__execute = function () {\n  \
                     globalThis.runs = (globalThis.runs || '') + 'x';\n  \
                     return { status: 0, stdout: '', stderr: '' };\n};\n''",
                );
                let program = generate_spec_program(&source, tokens);
                let fresh = spec_from_reply(self.interpreter.run(&program, 5000).as_deref())?;
                cached_spec(&mut self.kept_specs, &key, 0, Some(Arc::new(fresh)))?
            },
        };
        Some(Arc::new(merge_generated_spec(spec, copy_spec(&computed))))
    }

    fn eval(&self, program: &str) -> String {
        self.interpreter.context.with(|ctx| ctx.eval::<String, _>(program).expect("program"))
    }

    fn clear_caches(&mut self) {
        self.kept_outputs = KeptResults::new();
        self.kept_rows = KeptResults::new();
        self.kept_specs = KeptResults::new();
        if let Some(engine) = self.engine.as_mut() {
            engine.clear_caches(None);
        }
    }

    fn drive(&mut self, request: &CompleteRequest, ranked: bool) -> CompleteResult {
        let settings = Settings::default();
        let mut answers = CompleteAnswers {
            specs: SpecAnswers {
                lookup: true,
                hooks: self.host,
                specs: Vec::new(),
                generated: Vec::new(),
            },
            generated: None,
            fallback: None,
        };
        let text = ec_engine::completion_buffer(&request.buffer, request.cursor).to_owned();
        let (tokens, _) = ec_engine::tokenize(&text);
        loop {
            let outcome = match (&self.engine, ranked) {
                (Some(engine), true) => engine.complete(request, &settings, &answers),
                _ => look_up(&self.registry, request, &settings, &answers),
            };
            match outcome {
                Ok(result) => return result,
                Err(Missing::Spec(Need::Spec(name))) => {
                    let spec = self.get(&name);
                    answers.specs.specs.push((name, spec));
                },
                Err(Missing::Spec(Need::Generate(spec))) => {
                    let computed = self.run_generate_spec(&spec, &tokens, &request.cwd);
                    answers.specs.generated.push(computed);
                },
                Err(Missing::Rows(wanted)) => {
                    let rows = self.generate_rows(
                        &wanted.arg,
                        &tokens,
                        &wanted.query,
                        &wanted.search_term,
                        &request.cwd,
                        wanted.fuzzy,
                        &[],
                    );
                    let (pending, debounce_ms) = self.pending;
                    answers.generated = Some(GeneratedRows { rows, pending, debounce_ms });
                },
                Err(Missing::Fallback(_)) => answers.fallback = Some(Vec::new()),
            }
        }
    }

    fn complete(&mut self, request: CompleteRequest) -> Option<CompleteResult> {
        Some(self.drive(&request, true))
    }
}

fn dir_cwd() -> String {
    "/work".to_owned()
}

fn complete(world: &mut World, request: &CompleteRequest) -> CompleteResult {
    world.drive(request, false)
}

fn arcs<T>(list: Vec<T>) -> Vec<Arc<T>> {
    list.into_iter().map(Arc::new).collect()
}

impl World {
    /// Runs with hooks at hand.
    fn enter<R>(&mut self, cwd: &str, run: impl FnOnce(&mut World) -> R) -> R {
        self.host = true;
        self.host_cwd = cwd.to_owned();
        let result = run(self);
        self.host = false;
        result
    }

    fn generate_for_arg(
        &mut self,
        arg: &ArgSpec,
        tokens: &[String],
        query: &str,
        cwd: &str,
        fuzzy: bool,
    ) -> Vec<Suggestion> {
        self.generate_rows(arg, tokens, query, query, cwd, fuzzy, &[])
    }

    fn generate_for_arg_with_search_term(
        &mut self,
        arg: &ArgSpec,
        tokens: &[String],
        query: &str,
        search_term: &str,
        cwd: &str,
        fuzzy: bool,
    ) -> Vec<Suggestion> {
        self.generate_rows(arg, tokens, query, search_term, cwd, fuzzy, &[])
    }

    #[allow(clippy::too_many_arguments)]
    fn generate_for_arg_with_history(
        &mut self,
        arg: &ArgSpec,
        tokens: &[String],
        query: &str,
        search_term: &str,
        cwd: &str,
        fuzzy: bool,
        values: &[String],
    ) -> Vec<Suggestion> {
        self.generate_rows(arg, tokens, query, search_term, cwd, fuzzy, values)
    }

    fn generate(
        &mut self,
        spec: &Spec,
        tokens: &[String],
        query: &str,
        cwd: &str,
        fuzzy: bool,
    ) -> Vec<Suggestion> {
        let spec = Arc::new(copy_spec(spec));
        let answers =
            SpecAnswers { lookup: false, hooks: false, specs: Vec::new(), generated: Vec::new() };
        let places = Places::default();
        let mut replies: Vec<Reply> = Vec::new();
        loop {
            let input = GenerateInput {
                tokens,
                search_term: query,
                cwd,
                fuzzy,
                history_values: &[],
                configured_timeout_ms: 5000,
                host_cwd: None,
                hooks: None,
                environment: &[],
                places: &places,
                triggers: &[],
                replies: &replies,
            };
            match generate_rows_for(&input, &answers, &spec, query, &self.session) {
                Ok(Some(done)) => {
                    self.session = done.session;
                    return done.rows;
                },
                Ok(None) => return Vec::new(),
                Err(GenerateNeed::Spec(_)) => unreachable!(),
                Err(GenerateNeed::Generator(asked)) => {
                    let reply = self.answer(&asked.ask, &asked.generator, tokens, cwd);
                    replies.push(reply);
                },
            }
        }
    }
}

// ---------------------------------------------------------------------------
// Looking up
// ---------------------------------------------------------------------------
fn load_git() -> World {
    let mut dir = Disk::new();
    dir.write("git.json", r#"{
          "names": ["git"],
          "subcommands": [
            {"names": ["checkout"], "description": "Switch branches"},
            {"names": ["commit"], "description": "Record changes"},
            {"names": ["cherry-pick"], "description": "Apply commits"},
            {"names": ["status"], "description": "Show status"}
          ],
          "options": [{"names": ["--help"], "description": "Show help"}]
        }"#);
    World::load(dir)
}

#[test]
fn current_command_slice_follows_shell_separators_and_assignments() {
    assert_eq!(current_command_slice("git ch"), "git ch");
    assert_eq!(current_command_slice("echo x && git ch"), "git ch");
    assert_eq!(current_command_slice("echo x&&git ch"), "git ch");
    assert_eq!(current_command_slice("FOO+=1 git ch"), "git ch");
    assert_eq!(current_command_slice("echo x || git ch"), "git ch");
    assert_eq!(current_command_slice("echo x | grep --"), "grep --");
    assert_eq!(current_command_slice("echo x |& grep --"), "grep --");
    assert_eq!(current_command_slice("echo x; git ch"), "git ch");
    assert_eq!(current_command_slice("echo x & git ch"), "git ch");
    assert_eq!(current_command_slice("FOO=1 git ch"), "git ch");
    assert_eq!(current_command_slice("FOO=1 BAR=2 git ch"), "git ch");
    assert_eq!(current_command_slice("echo x && FOO=1 git ch"), "git ch");
    assert_eq!(current_command_slice(r#"echo "x && git" ch"#), r#"echo "x && git" ch"#);
    assert_eq!(current_command_slice("echo $(git ch"), "git ch");
    assert_eq!(current_command_slice("echo `git ch"), "git ch");
    assert_eq!(current_command_slice("echo x && (cd /tmp && git ch"), "git ch");
    assert_eq!(current_command_slice("{ echo x; git ch"), "git ch");
    assert_eq!(current_command_slice("echo foo 2>&1 && git ch"), "git ch");
    assert_eq!(current_command_slice("echo x && 2>&1 git ch"), "git ch");
    assert_eq!(current_command_slice("FOO=1"), "");
    assert_eq!(current_command_slice("echo x && "), "");
    assert_eq!(current_command_slice("'FOO=1' git ch"), "'FOO=1' git ch");
    assert_eq!(current_command_slice(r#""FOO=1" git ch"#), r#""FOO=1" git ch"#);
    assert_eq!(current_command_slice("FOO=1 (git ch"), "git ch");
    assert_eq!(current_command_slice("echo `foo)` && git ch"), "git ch");
    assert!(is_fresh_command_position("echo x && "));
    assert!(!is_fresh_command_position("echo x &&"));
    assert!(!is_fresh_command_position(""));
    assert!(!is_fresh_command_position("FOO=1 "));
    assert!(!is_fresh_command_position("echo x && FOO=1 "));
}

#[test]
fn git_ch_matches_checkout_and_cherry_pick() {
    let mut registry = load_git();
    let result = complete(
        &mut registry,
        &CompleteRequest {
            buffer: "git ch".into(),
            cwd: "/".into(),
            cursor: None,
            fuzzy: false,
            history_only: false,
            include_history: true,
            suggest_first_token: true,
            current_shell: None,
            current_process: None,
            environment_variables: Default::default(),
            alias: None,
        },
    );
    let names: Vec<_> = result.suggestions.iter().map(|s| s.name.as_str()).collect();
    assert!(names.contains(&"checkout"), "{names:?}");
    assert!(names.contains(&"cherry-pick"), "{names:?}");
    assert!(!names.contains(&"status"), "{names:?}");
    assert_eq!(result.search_term, "ch");
}

#[test]
fn chained_command_completes_the_current_command_not_the_first() {
    let mut registry = load_git();
    let result = complete(
        &mut registry,
        &CompleteRequest {
            buffer: "echo x && git ch".into(),
            cwd: "/".into(),
            cursor: None,
            fuzzy: false,
            history_only: false,
            include_history: true,
            suggest_first_token: true,
            current_shell: None,
            current_process: None,
            environment_variables: Default::default(),
            alias: None,
        },
    );
    let names: Vec<_> = result.suggestions.iter().map(|s| s.name.as_str()).collect();
    assert!(names.contains(&"checkout"), "{names:?}");
    assert!(names.contains(&"cherry-pick"), "{names:?}");
    assert_eq!(result.search_term, "ch");
}

#[test]
fn chained_quoted_token_keeps_the_raw_search_term() {
    let mut registry = load_git();
    let result = complete(
        &mut registry,
        &CompleteRequest {
            buffer: "echo x && git 'ch".into(),
            cwd: "/".into(),
            cursor: None,
            fuzzy: false,
            history_only: false,
            include_history: true,
            suggest_first_token: true,
            current_shell: None,
            current_process: None,
            environment_variables: Default::default(),
            alias: None,
        },
    );
    let names: Vec<_> = result.suggestions.iter().map(|s| s.name.as_str()).collect();
    assert!(names.contains(&"checkout"), "{names:?}");
    assert_eq!(result.search_term, "'ch");
}

#[test]
fn assignment_prefix_does_not_hide_the_root_command() {
    let mut registry = load_git();
    let result = complete(
        &mut registry,
        &CompleteRequest {
            buffer: "FOO=1 git ch".into(),
            cwd: "/".into(),
            cursor: None,
            fuzzy: false,
            history_only: false,
            include_history: true,
            suggest_first_token: true,
            current_shell: None,
            current_process: None,
            environment_variables: Default::default(),
            alias: None,
        },
    );
    let names: Vec<_> = result.suggestions.iter().map(|s| s.name.as_str()).collect();
    assert!(names.contains(&"checkout"), "{names:?}");
    assert_eq!(result.search_term, "ch");
}

#[test]
fn fuzzy_matches_non_prefix_subsequence() {
    let mut registry = load_git();
    let result = complete(
        &mut registry,
        &CompleteRequest {
            buffer: "git ckt".into(),
            cwd: "/".into(),
            cursor: None,
            fuzzy: true,
            history_only: false,
            include_history: true,
            suggest_first_token: true,
            current_shell: None,
            current_process: None,
            environment_variables: Default::default(),
            alias: None,
        },
    );
    let names: Vec<_> = result.suggestions.iter().map(|s| s.name.as_str()).collect();
    assert!(names.contains(&"checkout"), "{names:?}");
    assert!(!names.contains(&"commit"), "{names:?}");
}

#[test]
fn trailing_space_lists_all_subcommands() {
    let mut registry = load_git();
    let result = complete(
        &mut registry,
        &CompleteRequest {
            buffer: "git ".into(),
            cwd: "/".into(),
            cursor: None,
            fuzzy: false,
            history_only: false,
            include_history: true,
            suggest_first_token: true,
            current_shell: None,
            current_process: None,
            environment_variables: Default::default(),
            alias: None,
        },
    );
    assert!(result.suggestions.iter().any(|s| s.name == "status"));
    assert!(result.suggestions.iter().any(|s| s.kind == "option"));
    assert_eq!(result.search_term, "");
}

#[test]
fn first_token_without_space_matches_commands_not_subcommands() {
    let mut registry = load_git();
    let result = complete(
        &mut registry,
        &CompleteRequest {
            buffer: "gi".into(),
            cwd: "/".into(),
            cursor: None,
            fuzzy: false,
            history_only: false,
            include_history: true,
            suggest_first_token: true,
            current_shell: None,
            current_process: None,
            environment_variables: Default::default(),
            alias: None,
        },
    );
    let names: Vec<_> = result.suggestions.iter().map(|s| s.name.as_str()).collect();
    assert!(names.contains(&"git"), "{names:?}");
    assert!(!names.contains(&"checkout"), "{names:?}");
    assert_eq!(result.search_term, "gi");
}

#[test]
fn separator_with_no_command_uses_first_token_completion() {
    let mut registry = load_git();
    let result = complete(
        &mut registry,
        &CompleteRequest {
            buffer: "echo x && ".into(),
            cwd: "/".into(),
            cursor: None,
            fuzzy: false,
            history_only: false,
            include_history: true,
            suggest_first_token: true,
            current_shell: None,
            current_process: None,
            environment_variables: Default::default(),
            alias: None,
        },
    );
    let names: Vec<_> = result.suggestions.iter().map(|s| s.name.as_str()).collect();
    assert!(names.contains(&"git"), "{names:?}");
    assert_eq!(result.search_term, "");
}

#[test]
fn first_token_can_be_disabled() {
    let mut registry = load_git();
    let result = complete(
        &mut registry,
        &CompleteRequest {
            buffer: "gi".into(),
            cwd: "/".into(),
            cursor: None,
            fuzzy: false,
            history_only: false,
            include_history: true,
            suggest_first_token: false,
            current_shell: None,
            current_process: None,
            environment_variables: Default::default(),
            alias: None,
        },
    );
    assert!(result.suggestions.is_empty(), "{:?}", result.suggestions);
    assert_eq!(result.search_term, "gi");
}

#[test]
fn disable_for_commands_matches_the_configured_command_array() {
    let disabled = vec!["git".to_string(), "kubectl".to_string()];
    assert!(command_is_disabled_from(&disabled, "git"));
    assert!(!command_is_disabled_from(&disabled, "GIT"));
    assert!(!command_is_disabled_from(&disabled, " kubectl "));
    assert!(!command_is_disabled_from(&disabled, "cargo"));
    assert!(!command_is_disabled_from(&disabled, ""));
    assert!(command_is_disabled_from(&[" kubectl ".to_string()], " kubectl "));
}

#[test]
fn exact_first_token_does_not_list_subcommands() {
    let mut registry = load_git();
    let result = complete(
        &mut registry,
        &CompleteRequest {
            buffer: "git".into(),
            cwd: "/".into(),
            cursor: None,
            fuzzy: false,
            history_only: false,
            include_history: true,
            suggest_first_token: true,
            current_shell: None,
            current_process: None,
            environment_variables: Default::default(),
            alias: None,
        },
    );
    assert!(
        result.suggestions.iter().all(|s| s.name != "checkout"),
        "{:?}",
        result.suggestions
    );
    assert_eq!(result.search_term, "git");
}

#[test]
fn cursor_slices_buffer_so_mid_line_completes_the_token_before_caret() {
    let mut registry = load_git();
    let result = complete(
        &mut registry,
        &CompleteRequest {
            buffer: "git checkout".into(),
            cwd: "/".into(),
            cursor: Some(4),
            fuzzy: false,
            history_only: false,
            include_history: true,
            suggest_first_token: true,
            current_shell: None,
            current_process: None,
            environment_variables: Default::default(),
            alias: None,
        },
    );
    assert!(
        result.suggestions.iter().any(|s| s.name == "status"),
        "{:?}",
        result.suggestions
    );
    assert_eq!(result.search_term, "");
}

#[test]
fn args_hint_formats_optional_and_variadic() {
    assert_eq!(
        args_hint(&[Arc::new(ArgSpec {
            name: "path".into(),
            is_optional: true,
            is_variadic: true,
            ..ArgSpec::default()
        })]),
        "[path...]"
    );
    assert_eq!(
        args_hint(&[Arc::new(ArgSpec {
            name: "branch".into(),
            ..ArgSpec::default()
        })]),
        "<branch>"
    );
}

fn load_context_spec() -> World {
    let mut dir = Disk::new();
    dir.write("git.json", r#"{
          "names":["git"],
          "args":[{"name":"root path","description":"Root positional"}],
          "options":[
            {"names":["--message","-m"],"description":"Commit message","args":[{"name":"message","description":"Message value"}]},
            {"names":["--optional"],"args":[{"name":"maybe","description":"Optional value","isOptional":true}]}
          ],
          "subcommands":[
            {"names":["checkout"],"args":[
              {"name":"branch","description":"Branch value"},
              {"name":"path","description":"Path value","isOptional":true}
            ]}
          ]
        }"#);
    World::load(dir)
}

fn load_option_state_spec() -> World {
    let mut dir = Disk::new();
    dir.write("tool.json", r#"{
          "names":["tool"],
          "options":[
            {"names":["--one","-o"],"description":"One","exclusiveOn":["--two","-t"],"dependsOn":["--needed"]},
            {"names":["--two","-t"],"description":"Two"},
            {"names":["--needed"],"description":"Needed"},
            {"names":["--once"],"description":"Once"},
            {"names":["--twice"],"description":"Twice","isRepeatable":2},
            {"names":["--many"],"description":"Many","isRepeatable":true}
          ],
          "persistentOptions":[
            {"names":["--global","-g"],"description":"Global","isPersistent":true}
          ],
          "subcommands":[
            {"names":["child"],"options":[{"names":["--child"],"description":"Child"}]}
          ]
        }"#);
    World::load(dir)
}

fn load_parser_directive_spec() -> World {
    let mut dir = Disk::new();
    dir.write("strict.json", r#"{
          "names":["strict"],
          "parserDirectives":{
            "optionsMustPrecedeArguments":true,
            "flagsArePosixNoncompliant":true,
            "optionArgSeparators":[":","="]
          },
          "args":[{"name":"value"}],
          "options":[
            {"names":["--flag"],"description":"Flag"},
            {"names":["-word"],"description":"Non-POSIX long","requiresSeparator":":","args":[{"name":"value"}]},
            {"names":["--required"],"description":"Required separator","requiresSeparator":true,"args":[{"name":"value"}]},
            {"names":["--files"],"description":"Files","args":[{"name":"file","isVariadic":true,"optionsCanBreakVariadicArg":false}]}
          ],
          "subcommands":[
            {"names":["child"],"parserDirectives":{"optionsMustPrecedeArguments":false},"args":[{"name":"values","isVariadic":true,"optionsCanBreakVariadicArg":false}],"options":[{"names":["--child-flag"],"description":"Child flag"}]},
            {"names":["break"],"parserDirectives":{"optionsMustPrecedeArguments":false},"args":[{"name":"values","isVariadic":true,"optionsCanBreakVariadicArg":true}],"options":[{"names":["--child-flag"],"description":"Child flag"}]},
            {"names":["posix"],"parserDirectives":{"flagsArePosixNoncompliant":false},"options":[{"names":["-word"],"args":[{"name":"long-value"}]},{"names":["-w"]},{"names":["-o"]},{"names":["-r"]},{"names":["-d"]}]}
          ]
        }"#);
    World::load(dir)
}

#[test]
fn parser_directives_stop_options_after_positional_arguments() {
    let mut registry = load_parser_directive_spec();
    let result = context_result(&mut registry, "strict value ");
    assert!(!result.suggestions.iter().any(|s| s.name == "--flag"));
}

#[test]
fn parser_directives_control_variadic_option_breaks_and_current_arg() {
    let mut registry = load_parser_directive_spec();
    let result = context_result(&mut registry, "strict --files one ");
    assert_eq!(result.current_arg.as_ref().map(|arg| arg.name.as_str()), Some("file"));
    assert!(!result.suggestions.iter().any(|s| s.name == "--flag"));

    let result = context_result(&mut registry, "strict break one ");
    assert!(result.suggestions.iter().any(|s| s.name == "--child-flag"));

    // A known option-looking token is still a variadic value when the
    // positional arg explicitly disallows option breaks, both while the
    // token is being edited and after it has been completed.
    let result = context_result(&mut registry, "strict child one --child-flag");
    assert_eq!(result.current_arg.as_ref().map(|arg| arg.name.as_str()), Some("values"));
    assert!(!result.suggestions.iter().any(|s| s.name == "--child-flag"));
    let result = context_result(&mut registry, "strict child one --child-flag ");
    assert_eq!(result.current_arg.as_ref().map(|arg| arg.name.as_str()), Some("values"));
    assert!(!result.suggestions.iter().any(|s| s.name == "--child-flag"));

    // POSIX mode must parse a multi-letter single-dash token as a short
    // chain before considering an exact `-word` option.
    let result = context_result(&mut registry, "strict posix -word ");
    assert!(result.current_arg.is_none());
}

#[test]
fn parser_directives_parse_custom_attached_separator_and_non_posix_flags() {
    let mut registry = load_parser_directive_spec();
    for buffer in ["strict -word:abc", "strict -word=abc"] {
        let result = context_result(&mut registry, buffer);
        assert_eq!(result.search_term, "abc", "buffer={buffer}");
        assert_eq!(result.current_arg.as_ref().map(|arg| arg.name.as_str()), Some("value"));
        assert!(result.suggestions.is_empty());
    }

    let result = context_result(&mut registry, "strict -wo");
    let word = result
        .suggestions
        .iter()
        .find(|s| s.name == "-word")
        .expect("non-POSIX option");
    assert_eq!(word.separator_to_add.as_deref(), Some(":"));
    let result = context_result(&mut registry, "strict --req");
    let required = result
        .suggestions
        .iter()
        .find(|s| s.name == "--required")
        .expect("boolean requiresSeparator option");
    assert_eq!(required.separator_to_add.as_deref(), Some(":"));
}

#[test]
fn filter_strategy_uses_spec_only_without_an_active_argument() {
    let mut dir = Disk::new();
    dir.write("tool.json", r#"{
          "names":["tool"],
          "filterStrategy":"fuzzy",
          "subcommands":[{"names":["checkout"]},{"names":["cherry-pick"]}],
          "additionalSuggestions":[
            {"names":["deploy"],"type":"shortcut"},
            {"names":["bar"],"type":"shortcut","getQueryTerm":"/"}
          ]
        }"#);
    let mut registry = World::load(dir);

    let result = complete(
        &mut registry,
        &CompleteRequest {
            buffer: "tool ce".into(),
            fuzzy: false,
            include_history: false,
            ..CompleteRequest::default()
        },
    );
    assert!(result.fuzzy);
    assert!(result.suggestions.iter().any(|item| item.name == "checkout"));

    let result = complete(
        &mut registry,
        &CompleteRequest {
            buffer: "tool ?de".into(),
            fuzzy: false,
            include_history: false,
            ..CompleteRequest::default()
        },
    );
    let deploy = result
        .suggestions
        .iter()
        .find(|item| item.name == "deploy")
        .expect("shortcut query strips the leading question mark");
    assert_eq!(deploy.query_term.as_deref(), Some("de"));

    let result = complete(
        &mut registry,
        &CompleteRequest {
            buffer: "tool ?foo/bar".into(),
            fuzzy: false,
            include_history: false,
            ..CompleteRequest::default()
        },
    );
    let explicit = result
        .suggestions
        .iter()
        .find(|item| item.name == "bar")
        .expect("explicit getQueryTerm wins over shortcut handling");
    assert_eq!(explicit.query_term.as_deref(), Some("bar"));
}

#[test]
fn active_argument_filter_strategy_does_not_inherit_parent() {
    let mut dir = Disk::new();
    dir.write("argtool.json", r#"{
          "names":["argtool"],
          "filterStrategy":"fuzzy",
          "args":[{"name":"value","suggestions":[{"names":["target"]}]}]
        }"#);
    let mut registry = World::load(dir);
    let result = complete(
        &mut registry,
        &CompleteRequest {
            buffer: "argtool tr".into(),
            fuzzy: false,
            include_history: false,
            ..CompleteRequest::default()
        },
    );
    assert!(!result.fuzzy);
    assert!(!result.suggestions.iter().any(|item| item.name == "target"));

    let result = complete(
        &mut registry,
        &CompleteRequest {
            buffer: "argtool tr".into(),
            fuzzy: true,
            include_history: false,
            ..CompleteRequest::default()
        },
    );
    assert!(result.fuzzy);
    assert!(
        result.suggestions.iter().any(|item| item.name == "target"),
        "fuzzy={} current_arg={:?} suggestions={:?}",
        result.fuzzy,
        result.current_arg.as_ref().map(|arg| &arg.name),
        result.suggestions.iter().map(|item| &item.name).collect::<Vec<_>>()
    );
}

#[test]
fn static_named_categories_sort_without_reordering_positional_rows() {
    let mut dir = Disk::new();
    dir.write("sortme.json", r#"{
          "names":["sortme"],
          "args":[{"name":"value","suggestions":[{"names":["zulu"]},{"names":["alpha"]}]}],
          "subcommands":[{"names":["sub-zulu"]},{"names":["sub-alpha"]}],
          "additionalSuggestions":[{"names":["add-zulu"]},{"names":["add-alpha"]}],
          "options":[{"names":["--zulu"]},{"names":["--alpha"]}]
        }"#);
    let mut registry = World::load(dir);
    let result = context_result(&mut registry, "sortme ");
    let names: Vec<_> = result.suggestions.iter().map(|item| item.name.as_str()).collect();
    let sub_start = names.iter().position(|name| *name == "sub-alpha").unwrap();
    assert_eq!(&names[sub_start..sub_start + 2], ["sub-alpha", "sub-zulu"]);
    let positional_start = names
        .iter()
        .position(|name| *name == "zulu")
        .unwrap_or_else(|| panic!("names={names:?}"));
    assert_eq!(&names[positional_start..positional_start + 2], ["zulu", "alpha"]);
    let additional_start = names.iter().position(|name| *name == "add-alpha").unwrap();
    assert_eq!(
        &names[additional_start..additional_start + 2],
        ["add-alpha", "add-zulu"]
    );
    let option_start = names.iter().position(|name| *name == "--alpha").unwrap();
    assert_eq!(&names[option_start..option_start + 2], ["--alpha", "--zulu"]);
}

#[test]
fn option_state_filters_exclusive_repeatable_and_promotes_dependencies() {
    let mut registry = load_option_state_spec();
    let result = context_result(&mut registry, "tool -o ");
    let names: Vec<_> = result.suggestions.iter().map(|s| s.name.as_str()).collect();
    assert!(!names.contains(&"--two"), "{names:?}");
    assert!(!names.contains(&"-t"), "{names:?}");
    assert_eq!(
        result
            .suggestions
            .iter()
            .find(|s| s.name == "--needed")
            .map(|s| s.priority),
        Some(75)
    );

    let result = context_result(&mut registry, "tool --once --once ");
    let names: Vec<_> = result.suggestions.iter().map(|s| s.name.as_str()).collect();
    assert!(!names.contains(&"--once"), "{names:?}");

    let result = context_result(&mut registry, "tool --twice --twice ");
    let names: Vec<_> = result.suggestions.iter().map(|s| s.name.as_str()).collect();
    assert!(!names.contains(&"--twice"), "{names:?}");

    let result = context_result(&mut registry, "tool --many --many ");
    assert!(result.suggestions.iter().any(|s| s.name == "--many"));
}

#[test]
fn persistent_options_follow_subcommands_and_aliases_count_as_one_option() {
    let mut registry = load_option_state_spec();
    let result = context_result(&mut registry, "tool child ");
    assert!(result.suggestions.iter().any(|s| s.name == "--global"));

    let result = context_result(&mut registry, "tool -o ");
    assert!(result.suggestions.iter().any(|s| s.name == "--needed"));
    let result = context_result(&mut registry, "tool --one ");
    assert!(!result.suggestions.iter().any(|s| s.name == "--one"));
}

fn context_result(registry: &mut World, buffer: &str) -> CompleteResult {
    complete(
        registry,
        &CompleteRequest {
            buffer: buffer.into(),
            include_history: false,
            ..CompleteRequest::default()
        },
    )
}

fn load_option_chain_spec() -> World {
    let mut dir = Disk::new();
    dir.write("tool.json", r#"{
          "names":["tool"],
          "additionalSuggestions":[{"names":["shortcut"],"description":"Shortcut"}],
          "options":[
            {"names":["-a","--all"],"description":"All"},
            {"names":["-b","--brief"],"description":"Brief"},
            {"names":["-m","--message"],"description":"Message","args":[{
              "name":"message",
              "description":"Message value",
              "suggestions":[{"names":["foo"]},{"names":["foobar"]}]
            }]},
            {"names":["--long"],"description":"Long only"}
          ]
        }"#);
    World::load(dir)
}

fn load_argument_load_spec() -> World {
    let mut dir = Disk::new();
    dir.write("tool.json", r#"{
          "names":["tool"],
          "args":[{"name":"input","loadSpec":"positional-target"}],
          "options":[{"names":["--profile","-p"],"args":[{"name":"profile","loadSpec":"profile-target"}]}]
        }"#);
    dir.write("positional-target.json", r#"{
          "names":["positional-target"],
          "args":[{"name":"next input"}],
          "subcommands":[{"names":["child"]}],
          "options":[{"names":["--target-only"]}]
        }"#);
    dir.write("profile-target.json", r#"{
          "names":["profile-target"],
          "args":[{"name":"next profile"}],
          "subcommands":[{"names":["list"]}],
          "options":[{"names":["--profile-only"]}]
        }"#);
    World::load(dir)
}

#[test]
fn current_arg_tracks_positional_query_without_consuming_it() {
    let mut registry = load_context_spec();
    let result = context_result(&mut registry, "git checkout fe");
    assert_eq!(result.search_term, "fe");
    assert_eq!(result.current_arg.as_ref().map(|arg| arg.name.as_str()), Some("branch"));
    assert_eq!(
        result.current_arg.as_ref().map(|arg| arg.description.as_str()),
        Some("Branch value")
    );
}

#[test]
fn current_arg_advances_after_a_completed_positional_token() {
    let mut registry = load_context_spec();
    let result = context_result(&mut registry, "git checkout feature ");
    assert_eq!(result.search_term, "");
    assert_eq!(result.current_arg.as_ref().map(|arg| arg.name.as_str()), Some("path"));
    assert_eq!(
        result.current_arg.as_ref().map(|arg| arg.description.as_str()),
        Some("Path value")
    );
}

#[test]
fn completed_positional_load_spec_replaces_context_but_not_the_editing_token() {
    let mut registry = load_argument_load_spec();

    let editing = context_result(&mut registry, "tool value");
    assert_eq!(editing.current_arg.as_ref().map(|arg| arg.name.as_str()), Some("input"));
    assert!(!editing.suggestions.iter().any(|suggestion| suggestion.name == "child"));

    let completed = context_result(&mut registry, "tool value ");
    assert_eq!(
        completed.current_arg.as_ref().map(|arg| arg.name.as_str()),
        Some("next input")
    );
    assert!(
        completed
            .suggestions
            .iter()
            .any(|suggestion| suggestion.name == "child")
    );
    assert!(
        completed
            .suggestions
            .iter()
            .any(|suggestion| suggestion.name == "--target-only")
    );
}

#[test]
fn completed_separated_option_value_loads_the_option_spec() {
    let mut registry = load_argument_load_spec();

    let editing = context_result(&mut registry, "tool --profile value");
    assert_eq!(
        editing.current_arg.as_ref().map(|arg| arg.name.as_str()),
        Some("profile")
    );
    assert!(!editing.suggestions.iter().any(|suggestion| suggestion.name == "list"));

    let completed = context_result(&mut registry, "tool --profile value ");
    assert_eq!(
        completed.current_arg.as_ref().map(|arg| arg.name.as_str()),
        Some("next profile")
    );
    assert!(completed.suggestions.iter().any(|suggestion| suggestion.name == "list"));
    assert!(
        completed
            .suggestions
            .iter()
            .any(|suggestion| suggestion.name == "--profile-only")
    );
}

#[test]
fn completed_equals_and_short_attached_values_load_the_option_spec() {
    let mut registry = load_argument_load_spec();

    for buffer in ["tool --profile=value ", "tool -pvalue "] {
        let completed = context_result(&mut registry, buffer);
        assert_eq!(
            completed.current_arg.as_ref().map(|arg| arg.name.as_str()),
            Some("next profile"),
            "buffer={buffer}"
        );
        assert!(
            completed.suggestions.iter().any(|suggestion| suggestion.name == "list"),
            "buffer={buffer}, suggestions={:?}",
            completed.suggestions
        );
    }

    for buffer in ["tool --profile=value", "tool -pvalue"] {
        let editing = context_result(&mut registry, buffer);
        assert_eq!(
            editing.current_arg.as_ref().map(|arg| arg.name.as_str()),
            Some("profile"),
            "buffer={buffer}"
        );
        assert!(
            editing.suggestions.iter().all(|suggestion| suggestion.name != "list"),
            "buffer={buffer}, suggestions={:?}",
            editing.suggestions
        );
    }
}

#[test]
fn positional_load_spec_after_double_dash_still_switches_context() {
    let mut registry = load_argument_load_spec();
    let completed = context_result(&mut registry, "tool -- value ");
    assert_eq!(
        completed.current_arg.as_ref().map(|arg| arg.name.as_str()),
        Some("next input")
    );
    assert!(
        completed
            .suggestions
            .iter()
            .any(|suggestion| suggestion.name == "child")
    );
    assert!(
        completed
            .suggestions
            .iter()
            .all(|suggestion| suggestion.name != "--profile-only")
    );
}

#[test]
fn current_arg_handles_option_value_and_equals_form() {
    let mut registry = load_context_spec();
    for (buffer, search) in [
        ("git --message foo", "foo"),
        ("git --message ", ""),
        ("git --message=foo", "foo"),
    ] {
        let result = context_result(&mut registry, buffer);
        assert_eq!(result.search_term, search, "buffer={buffer}");
        assert_eq!(
            result.current_arg.as_ref().map(|arg| arg.name.as_str()),
            Some("message"),
            "buffer={buffer}"
        );
        assert!(
            result.suggestions.is_empty(),
            "an option value must not fall back to sibling options: buffer={buffer}, suggestions={:?}",
            result.suggestions
        );
    }
    assert!(context_result(&mut registry, "git --message").current_arg.is_none());
}

#[test]
fn short_option_chain_extends_each_short_option_and_keeps_the_current_one() {
    let mut registry = load_option_chain_spec();
    let result = context_result(&mut registry, "tool -ab");
    let option_names = result
        .suggestions
        .iter()
        .filter(|suggestion| suggestion.kind == "option")
        .map(|suggestion| suggestion.name.as_str())
        .collect::<Vec<_>>();
    assert!(option_names.contains(&"-ab"), "{option_names:?}");
    assert!(option_names.contains(&"-aba"), "{option_names:?}");
    assert!(option_names.contains(&"-abm"), "{option_names:?}");
    assert!(!option_names.contains(&"--long"), "{option_names:?}");
    assert!(
        result
            .suggestions
            .iter()
            .find(|suggestion| suggestion.name == "shortcut")
            .is_some_and(|suggestion| suggestion.query_term.as_deref() == Some(""))
    );
}

#[test]
fn mandatory_last_chain_option_shows_its_args_without_deleting_the_chain() {
    let mut registry = load_option_chain_spec();
    let result = context_result(&mut registry, "tool -am");
    assert_eq!(
        result.current_arg.as_ref().map(|arg| arg.name.as_str()),
        Some("message")
    );
    assert!(
        result
            .suggestions
            .iter()
            .any(|suggestion| { suggestion.name == "foo" && suggestion.query_term.as_deref() == Some("") })
    );
    assert!(result.suggestions.iter().any(|suggestion| {
        suggestion.kind == "option" && suggestion.name == "-am" && suggestion.query_term.as_deref() == Some("-am")
    }));
    assert!(
        result
            .suggestions
            .iter()
            .all(|suggestion| suggestion.name != "-ama" && suggestion.name != "-amb")
    );
}

#[test]
fn attached_short_chain_argument_replaces_only_its_value() {
    let mut registry = load_option_chain_spec();
    let result = context_result(&mut registry, "tool -amfoo");
    assert_eq!(result.search_term, "foo");
    assert_eq!(
        result.current_arg.as_ref().map(|arg| arg.name.as_str()),
        Some("message")
    );
    assert!(result.suggestions.iter().any(|suggestion| suggestion.name == "foobar"));
    assert!(result.suggestions.iter().all(|suggestion| suggestion.kind != "option"));
}

#[test]
fn completed_short_chain_is_consumed_before_the_argument_context() {
    let mut registry = load_option_chain_spec();
    let result = context_result(&mut registry, "tool -am ");
    assert_eq!(result.search_term, "");
    assert_eq!(
        result.current_arg.as_ref().map(|arg| arg.name.as_str()),
        Some("message")
    );
    assert!(result.suggestions.iter().any(|suggestion| suggestion.name == "foo"));
    assert!(result.suggestions.iter().all(|suggestion| suggestion.kind != "option"));
}

#[test]
fn unknown_chain_and_long_options_keep_the_normal_path() {
    let mut registry = load_option_chain_spec();
    let unknown = context_result(&mut registry, "tool -az");
    assert!(unknown.suggestions.iter().all(|suggestion| suggestion.kind != "option"));

    let long = context_result(&mut registry, "tool --long");
    assert!(
        long.suggestions
            .iter()
            .any(|suggestion| suggestion.kind == "option" && suggestion.name == "--long")
    );
}

#[test]
fn current_arg_honors_double_dash_and_shell_quoting() {
    let mut registry = load_context_spec();
    let result = context_result(&mut registry, "git -- fe\\ bar");
    assert_eq!(result.search_term, "fe\\ bar");
    assert_eq!(
        result.current_arg.as_ref().map(|arg| arg.name.as_str()),
        Some("root path")
    );
    let (tokens, trailing) = tokenize("git 'fe bar' ");
    assert_eq!(tokens, vec!["git", "fe bar"]);
    assert!(trailing);
}

#[test]
fn subcommand_args_hint_comes_from_ir() {
    let mut dir = Disk::new();
    dir.write("git.json", r#"{
          "names": ["git"],
          "subcommands": [
            {
              "names": ["checkout"],
              "description": "Switch branches",
              "args": [{"name": "branch", "isOptional": true}]
            }
          ]
        }"#);
    let mut registry = World::load(dir);
    let result = complete(
        &mut registry,
        &CompleteRequest {
            buffer: "git ".into(),
            cwd: "/".into(),
            cursor: None,
            fuzzy: false,
            history_only: false,
            include_history: true,
            suggest_first_token: true,
            current_shell: None,
            current_process: None,
            environment_variables: Default::default(),
            alias: None,
        },
    );
    let checkout = result
        .suggestions
        .iter()
        .find(|s| s.name == "checkout")
        .expect("checkout");
    assert_eq!(checkout.args_hint, "[branch]");
}

#[test]
fn subcommand_with_children_adds_a_trailing_space_by_default() {
    let mut dir = Disk::new();
    dir.write("git.json", r#"{"names":["git"],"subcommands":[{"names":["remote"],"subcommands":[{"names":["-v"]}]}]}"#);
    let mut registry = World::load(dir);
    let result = complete(
        &mut registry,
        &CompleteRequest {
            buffer: "git ".into(),
            ..CompleteRequest::default()
        },
    );
    let remote = result
        .suggestions
        .iter()
        .find(|suggestion| suggestion.name == "remote")
        .expect("remote");
    assert!(remote.should_add_space);
}

#[test]
fn additional_suggestions_are_available_after_a_trailing_space() {
    let mut dir = Disk::new();
    dir.write("git.json", r#"{
          "names": ["git"],
          "subcommands": [{"names": ["commit"]}],
          "additionalSuggestions": [{"names": ["commit -m 'msg'"], "description": "Git commit shortcut"}]
        }"#);
    let mut registry = World::load(dir);
    let result = complete(
        &mut registry,
        &CompleteRequest {
            buffer: "git ".into(),
            cwd: "/".into(),
            ..CompleteRequest::default()
        },
    );
    let shortcut = result
        .suggestions
        .iter()
        .find(|suggestion| suggestion.name == "commit -m 'msg'")
        .expect("additional suggestion");
    assert_eq!(shortcut.kind, "arg");
    assert_eq!(shortcut.description, "Git commit shortcut");
    assert_eq!(shortcut.icon.as_deref(), Some("fig://template?color=628dad&badge=➡️"));
}

#[test]
fn static_suggestion_type_query_term_and_original_type_are_preserved() {
    let mut dir = Disk::new();
    dir.write("demo.json", r#"{
          "names": ["demo"],
          "args": [{
            "name": "target",
            "suggestions": [{
              "names": ["file.txt"],
              "description": "A file",
              "type": "file",
              "originalType": "folder",
              "getQueryTerm": "/"
            }]
          }]
        }"#);
    let mut registry = World::load(dir);
    let result = complete(
        &mut registry,
        &CompleteRequest {
            buffer: "demo dir/fi".into(),
            include_history: false,
            ..CompleteRequest::default()
        },
    );
    let suggestion = result
        .suggestions
        .iter()
        .find(|suggestion| suggestion.name == "file.txt")
        .expect("static suggestion");
    assert_eq!(suggestion.kind, "file");
    assert_eq!(suggestion.original_type.as_deref(), Some("folder"));
    assert_eq!(suggestion.query_term.as_deref(), Some("fi"));
    // Keep the raw shell token for deletion; the per-row query term tells
    // insertion to delete only the suffix after the slash.
    assert_eq!(result.search_term, "dir/fi");
    assert_eq!(result.match_term, "dir/fi");
}

#[test]
fn argument_query_term_changes_match_term_for_static_rows() {
    let mut dir = Disk::new();
    dir.write("demo.json", r#"{
          "names": ["demo"],
          "args": [{
            "name": "target",
            "getQueryTerm": "/",
            "suggestions": [{"names": ["file.txt"], "type": "file"}]
          }]
        }"#);
    let mut registry = World::load(dir);
    let result = complete(
        &mut registry,
        &CompleteRequest {
            buffer: "demo dir/fi".into(),
            include_history: false,
            ..CompleteRequest::default()
        },
    );
    let suggestion = result
        .suggestions
        .iter()
        .find(|suggestion| suggestion.name == "file.txt")
        .expect("static suggestion");
    assert_eq!(suggestion.query_term.as_deref(), Some("fi"));
    assert_eq!(result.search_term, "dir/fi");
    assert_eq!(result.match_term, "fi");
}

#[test]
fn exact_safe_item_gets_an_auto_execute_row_when_enabled() {
    let mut suggestions = vec![Suggestion::new("status", "Show status", "subcommand")];
    add_exact_auto_execute(&mut suggestions, "status", false, false, false);
    assert_eq!(suggestions[0].kind, "auto-execute");
    assert_eq!(suggestions[0].insert_value.as_deref(), Some("\n"));
    assert_eq!(suggestions[0].original_type.as_deref(), Some("subcommand"));
    assert_eq!(suggestions[1].name, "status");
}

#[test]
fn display_name_alone_does_not_create_an_exact_auto_execute_row() {
    let mut suggestion = Suggestion::new("actual", "", "arg");
    suggestion.display_name = Some("Pretty Label".into());
    let mut suggestions = vec![suggestion];
    add_exact_auto_execute(&mut suggestions, "Pretty Label", false, false, false);
    assert_eq!(suggestions.len(), 1);
    assert_eq!(suggestions[0].kind, "arg");
}

#[test]
fn exact_alias_uses_the_source_primary_name_for_auto_execute() {
    // The WebView checks names[0] against insertValue, not the alias that
    // happened to match the query.  This is common for canonical names
    // with a short alias (e.g. `checkout` / `co`).
    let suggestion = Suggestion::new("co", "Checkout", "arg")
        .with_insert_value("checkout")
        .with_primary_name(Some("checkout".into()));
    let mut suggestions = vec![suggestion];
    add_exact_auto_execute(&mut suggestions, "co", false, false, false);
    assert_eq!(suggestions[0].kind, "auto-execute");
    assert_eq!(suggestions[1].name, "co");
}

#[test]
fn verbose_alias_selection_uses_the_longest_matching_name() {
    let names: Vec<String> = vec!["-h".into(), "--help".into()];
    assert_eq!(
        select_named_candidate(&names, None, "-", false, false).map(|i| names[i].as_str()),
        Some("-h")
    );
    assert_eq!(
        select_named_candidate(&names, None, "-", false, true).map(|i| names[i].as_str()),
        Some("--help")
    );
}

#[test]
fn hidden_names_are_revealed_only_by_an_exact_alias() {
    let names: Vec<String> = vec!["secret".into(), "hidden-alias".into()];
    assert!(!hidden_item_is_visible(true, &names, "sec"));
    assert!(!hidden_item_is_visible(true, &names, "Friendly"));
    assert!(hidden_item_is_visible(true, &names, "SECRET"));
    assert!(hidden_item_is_visible(true, &names, "hidden-alias"));
    assert!(hidden_item_is_visible(false, &names, "sec"));
}

#[test]
fn hidden_static_positional_rows_reappear_only_for_case_insensitive_exact_matches() {
    let mut dir = Disk::new();
    dir.write("demo.json", r#"{
          "names": ["demo"],
          "args": [{
            "name": "value",
            "suggestCurrentToken": true,
            "suggestions": [
              {"names": ["SecretValue"], "description": "Hidden value", "hidden": true},
              {"names": ["visible"], "description": "Visible value"}
            ]
          }]
        }"#);
    let mut registry = World::load(dir);

    let root = registry.get("demo").expect("demo spec");
    let (tokens, trailing) = tokenize("demo vis");
    let alone = SpecAnswers { lookup: false, hooks: false, specs: Vec::new(), generated: Vec::new() };
    let context = match resolve_context(&alone, root, &tokens, trailing, "vis", "vis") {
        Ok(context) => context,
        Err(_) => panic!("nothing else is needed"),
    };
    assert_eq!(
        context
            .active_arg
            .as_ref()
            .and_then(|active| active.arg.suggest_current_token),
        Some(true)
    );

    let exact = context_result(&mut registry, "demo secretvalue");
    assert!(
        exact
            .suggestions
            .iter()
            .any(|suggestion| { suggestion.name == "SecretValue" && suggestion.description == "Hidden value" })
    );

    let partial = context_result(&mut registry, "demo secret");
    assert!(partial.suggestions.is_empty(), "{:?}", partial.suggestions);

    let empty = context_result(&mut registry, "demo ");
    assert!(
        empty
            .suggestions
            .iter()
            .all(|suggestion| suggestion.name != "SecretValue")
    );
}

#[test]
fn argument_suggest_current_token_override_wins_over_global_setting() {
    let disabled = ArgSpec {
        suggest_current_token: Some(false),
        ..ArgSpec::default()
    };
    let enabled = ArgSpec {
        suggest_current_token: Some(true),
        ..ArgSpec::default()
    };
    let inherited = ArgSpec::default();
    fn active(arg: ArgSpec) -> ActiveArg {
        ActiveArg {
            arg: Arc::new(arg),
            query: "value".into(),
            search_term: "value".into(),
            exclusive: false,
        }
    }

    let disabled_active = active(disabled);
    let enabled_active = active(enabled);
    let inherited_active = active(inherited);
    assert!(!suggest_current_token_for(Some(&disabled_active), true));
    assert!(suggest_current_token_for(Some(&enabled_active), false));
    assert!(suggest_current_token_for(Some(&inherited_active), true));
    assert!(!suggest_current_token_for(Some(&inherited_active), false));
    assert!(suggest_current_token_for(None, true));
}

#[test]
fn exact_item_with_required_argument_does_not_auto_execute() {
    let mut required = Suggestion::new("commit", "Commit", "subcommand");
    required.requires_arg = true;
    // Mandatory unnamed args have no visible hint, but must still prevent
    // Enter from executing an incomplete command.
    assert!(required.args_hint.is_empty());
    let mut suggestions = vec![required];
    add_exact_auto_execute(&mut suggestions, "commit", false, false, false);
    assert_eq!(suggestions.len(), 1);
}

#[test]
fn dangerous_exact_items_need_the_explicit_run_setting() {
    let mut suggestions = vec![Suggestion::new("clean", "Remove files", "subcommand").with_dangerous(true)];
    add_exact_auto_execute(&mut suggestions, "clean", false, false, false);
    assert_eq!(suggestions.len(), 1);
    add_exact_auto_execute(&mut suggestions, "clean", false, false, true);
    assert_eq!(suggestions[0].kind, "auto-execute");
}

#[test]
fn partial_dangerous_match_still_allows_current_token_fallback() {
    let mut suggestions = vec![Suggestion::new("clean", "Remove files", "subcommand").with_dangerous(true)];
    add_current_token_auto_execute(&mut suggestions, "cl", true, false, false, false);
    assert_eq!(suggestions[0].kind, "auto-execute");
    assert_eq!(suggestions[0].name, "cl");
}

#[test]
fn exact_dangerous_match_blocks_current_token_fallback() {
    let mut suggestions = vec![Suggestion::new("clean", "Remove files", "subcommand").with_dangerous(true)];
    add_current_token_auto_execute(&mut suggestions, "clean", true, false, false, false);
    assert_eq!(suggestions.len(), 1);
    assert_eq!(suggestions[0].kind, "subcommand");
}

#[test]
fn directory_auto_execute_special_cases_do_not_require_current_token_setting() {
    let mut dot = vec![Suggestion::new(".gitignore", "File", "file")];
    add_current_token_auto_execute(&mut dot, ".", false, false, false, false);
    assert_eq!(dot[0].name, ".");
    assert_eq!(dot[0].description, "Enter the current directory");
    assert_eq!(dot[0].original_type.as_deref(), Some("folder"));

    let mut folder = vec![Suggestion::new("src/", "Folder", "folder")];
    add_current_token_auto_execute(&mut folder, "src/", false, false, false, false);
    assert_eq!(folder[0].name, "↪");
    assert_eq!(folder[0].description, "Enter the current directory");
}

#[test]
fn auto_execute_rows_still_obey_visibility_configuration() {
    let mut exact_hidden = vec![Suggestion::new("status", "Show status", "subcommand")];
    add_exact_auto_execute(&mut exact_hidden, "status", true, false, false);
    assert!(exact_hidden.iter().all(|item| item.kind != "auto-execute"));

    let mut dot_hidden = vec![Suggestion::new(".gitignore", "File", "file")];
    add_current_token_auto_execute(&mut dot_hidden, ".", false, true, false, false);
    assert!(dot_hidden.iter().all(|item| item.kind != "auto-execute"));

    let mut exact_tab_only = vec![Suggestion::new("status", "Show status", "subcommand")];
    add_exact_auto_execute(&mut exact_tab_only, "status", false, true, false);
    assert!(exact_tab_only.iter().all(|item| item.kind != "auto-execute"));
}

#[test]
fn exact_folder_match_uses_the_directory_action_name() {
    let mut suggestions = vec![Suggestion::new("src/", "Folder", "folder")];
    add_exact_auto_execute(&mut suggestions, "src", false, false, false);
    assert_eq!(suggestions[0].name, "src");
    assert_eq!(suggestions[0].description, "folder");
    assert_eq!(suggestions[0].original_type.as_deref(), Some("folder"));
}

#[test]
fn trailing_space_can_add_immediate_execute_row() {
    let mut suggestions = vec![Suggestion::new("status", "Show status", "subcommand")];
    add_space_auto_execute(&mut suggestions, "", true, false, false);
    assert_eq!(suggestions[0].name, "↪");
    assert_eq!(suggestions[0].insert_value.as_deref(), Some("\n"));
}

#[test]
fn always_suggest_current_token_adds_an_action_row() {
    let mut suggestions = vec![Suggestion::new("checkout", "", "subcommand")];
    add_current_token_auto_execute(&mut suggestions, "ch", true, false, false, true);
    assert_eq!(suggestions[0].name, "ch");
    assert_eq!(suggestions[0].description, "Enter the current argument");
    assert_eq!(suggestions[0].insert_value.as_deref(), Some("\n"));
}

fn load_is_command_registry() -> World {
    let mut dir = Disk::new();
    dir.write("wrapper.json", r#"{
          "names": ["wrapper"],
          "args": [{ "name": "command", "isCommand": true }],
          "options": [{
            "names": ["-u", "--user"],
            "args": [{ "name": "user" }]
          }]
        }"#);
    dir.write("target.json", r#"{
          "names": ["target"],
          "subcommands": [
            { "names": ["build"], "description": "Build the project" },
            { "names": ["test"], "description": "Run tests" }
          ]
        }"#);
    dir.write("eslint.json", r#"{
          "names": ["eslint"],
          "options": [{ "names": ["--fix"], "description": "Fix problems" }]
        }"#);
    dir.write("modhost.json", r#"{
          "names": ["modhost"],
          "args": [{ "name": "module", "isModule": "lang/" }]
        }"#);
    dir.create_dir("lang");
    dir.write("lang/http.json", r#"{
          "names": ["lang/http"],
          "subcommands": [{ "names": ["get"], "description": "GET" }]
        }"#);
    dir.write("dockerish.json", r#"{
          "names": ["dockerish"],
          "subcommands": [{
            "names": ["exec"],
            "args": [
              { "name": "container" },
              { "name": "command", "isCommand": true }
            ]
          }]
        }"#);
    World::load(dir)
}

#[test]
fn is_command_token_lists_bundled_commands() {
    let mut registry = load_is_command_registry();
    let result = context_result(&mut registry, "wrapper ta");
    assert!(
        result.suggestions.iter().any(|item| item.name == "target"),
        "{:?}",
        result.suggestions
    );
    let empty = context_result(&mut registry, "wrapper ");
    assert!(
        empty.suggestions.iter().any(|item| item.name == "target"),
        "{:?}",
        empty.suggestions
    );
}

#[test]
fn is_command_switches_to_the_named_spec() {
    let mut registry = load_is_command_registry();
    let result = context_result(&mut registry, "wrapper target b");
    assert!(
        result.suggestions.iter().any(|item| item.name == "build"),
        "{:?}",
        result.suggestions
    );
    let after_space = context_result(&mut registry, "wrapper target ");
    assert!(
        after_space.suggestions.iter().any(|item| item.name == "test"),
        "{:?}",
        after_space.suggestions
    );
}

#[test]
fn is_command_follows_an_option_value() {
    let mut registry = load_is_command_registry();
    let result = context_result(&mut registry, "wrapper -u root target te");
    assert!(
        result.suggestions.iter().any(|item| item.name == "test"),
        "{:?}",
        result.suggestions
    );
}

#[test]
fn nested_is_command_keeps_switching() {
    let mut dir = Disk::new();
    dir.write("sudoish.json", r#"{
          "names": ["sudoish"],
          "args": [{ "name": "command", "isCommand": true }]
        }"#);
    let mut registry = World::load(dir);
    let result = context_result(&mut registry, "sudoish sudoish sudoish ");
    assert!(
        result.suggestions.iter().any(|item| item.name == "sudoish"),
        "{:?}",
        result.suggestions
    );
}

#[test]
fn is_command_on_a_later_positional_arg() {
    let mut registry = load_is_command_registry();
    let result = context_result(&mut registry, "dockerish exec box eslint --");
    assert!(
        result.suggestions.iter().any(|item| item.name == "--fix"),
        "{:?}",
        result.suggestions
    );
}

#[test]
fn is_module_loads_the_prefixed_spec() {
    let mut registry = load_is_command_registry();
    let typing = context_result(&mut registry, "modhost ht");
    assert!(
        typing.suggestions.iter().any(|item| item.name == "http"),
        "{:?}",
        typing.suggestions
    );
    let switched = context_result(&mut registry, "modhost http g");
    assert!(
        switched.suggestions.iter().any(|item| item.name == "get"),
        "{:?}",
        switched.suggestions
    );
}

#[test]
fn load_spec_wins_over_is_command() {
    let mut dir = Disk::new();
    dir.write("host.json", r#"{
          "names": ["host"],
          "args": [{
            "name": "command",
            "isCommand": true,
            "loadSpec": {
              "names": ["forced"],
              "subcommands": [{ "names": ["only"], "description": "From loadSpec" }]
            }
          }]
        }"#);
    dir.write("other.json", r#"{
          "names": ["other"],
          "subcommands": [{ "names": ["nope"], "description": "Should not load" }]
        }"#);
    let mut registry = World::load(dir);
    let result = context_result(&mut registry, "host other ");
    assert!(
        result.suggestions.iter().any(|item| item.name == "only"),
        "{:?}",
        result.suggestions
    );
    assert!(result.suggestions.iter().all(|item| item.name != "nope"));
}

#[test]
fn command_lookup_name_uses_basename_for_paths() {
    assert_eq!(command_lookup_name("git", false), "git");
    assert_eq!(command_lookup_name("foo/bar", false), "foo/bar");
    assert_eq!(command_lookup_name("./bin/git", false), "git");
    assert_eq!(command_lookup_name("/usr/bin/git", false), "git");
    assert_eq!(command_lookup_name("~/bin/git", true), "git");
}

// ---------------------------------------------------------------------------
// The engine
// ---------------------------------------------------------------------------
#[test]
fn omitted_priority_matches_webview_default() {
    assert_eq!(Suggestion::new("status", "", "subcommand").priority, 50);
    assert_eq!(
        Suggestion::new("status", "", "subcommand")
            .with_meta(None, None, None, false, false, None, None)
            .priority,
        50
    );
    assert_eq!(Suggestion::new("zero", "", "arg").with_priority(0).priority, 50);
    assert_eq!(Suggestion::new("high", "", "arg").with_priority(900).priority, 100);
    assert_eq!(Suggestion::new("low", "", "arg").with_priority(-2).priority, 0);
}

#[test]
fn disable_history_loading_prevents_loading_and_merging() {
    assert!(history_loading_enabled(false));
    assert!(!history_loading_enabled(true));
    assert!(should_merge_history(true, false));
    assert!(!should_merge_history(true, true));
    assert!(!should_merge_history(false, false));
}

#[test]
fn string_query_term_matches_webview_separator_behavior() {
    assert_eq!(query_term_for("~/foo", Some("/")), "foo");
    assert_eq!(query_term_for("a/b/c", Some("/")), "c");
    assert_eq!(query_term_for("foo", Some("/")), "foo");
    assert_eq!(query_term_for("foo", None), "foo");
    assert_eq!(query_term_for("foo", Some("")), "");
}

#[test]
fn ranking_root_command_matches_the_completion_token() {
    assert_eq!(ranking_root_command("git checkout", None), "git");
    assert_eq!(ranking_root_command("'git' checkout", None), "git");
    assert_eq!(ranking_root_command(r"my\ command arg", None), "my command");
    assert_eq!(ranking_root_command("git checkout", Some(2)), "gi");
    assert_eq!(ranking_root_command("", None), "");
    assert_eq!(ranking_root_command("echo x && git checkout", None), "git");
    assert_eq!(ranking_root_command("FOO=1 git checkout", None), "git");
    assert_eq!(ranking_root_command("echo x && git checkout", Some(6)), "echo");
}

#[test]
fn generate_spec_merges_dynamic_subcommands() {
    let mut dir = Disk::new();
    dir.create_dir("hooks");
    dir.write("hooks/php_generateSpec_0.js", "export default async function() { return { name: 'php', subcommands: [{ name: 'artisan', description: 'Laravel' }] }; }\n");
    dir.write_spec(
        "php",
        r#"{"names":["php"],"jsGenerateSpec":"php#generateSpec#0"}"#,
    );
    let mut engine = World::with_frecency(dir, Frecency::default());
    let result = engine
        .complete(CompleteRequest {
            buffer: "php ".into(),
            cwd: dir_cwd(),
            ..CompleteRequest::default()
        })
        .expect("complete");
    assert!(
        result.suggestions.iter().any(|row| row.name == "artisan"),
        "{:?}",
        result.suggestions
    );
}

#[test]
fn client_clear_caches_drops_generate_spec_results() {
    let mut dir = Disk::new();
    dir.create_dir("hooks");
    dir.write(
        "hooks/demo_generateSpec_0.js",
        "export default async(e,t)=>{await t({command:\"sh\",args:[\"-c\",\"printf x >> runs\"]});return {name:\"demo\",subcommands:[{name:\"alpha\"}]};}\n",
    );
    dir.write("demo.json", r#"{"names":["demo"],"jsGenerateSpec":"demo#generateSpec#0"}"#);
    let mut client = World::with_frecency(dir, Frecency::default());
    let request = || CompleteRequest {
        buffer: "demo a".into(),
        cwd: dir_cwd(),
        ..CompleteRequest::default()
    };
    let first = client.complete(request()).expect("first complete");
    assert!(first.suggestions.iter().any(|row| row.name == "alpha"), "{:?}", first.suggestions);
    let second = client.complete(request()).expect("cached complete");
    assert!(second.suggestions.iter().any(|row| row.name == "alpha"), "{:?}", second.suggestions);
    assert_eq!(
        client.eval("globalThis.runs").matches('x').count(),
        1,
        "the second complete must hit the generateSpec cache"
    );
    client.clear_caches();
    client.complete(request()).expect("complete after clear");
    assert_eq!(
        client.eval("globalThis.runs").matches('x').count(),
        2,
        "ClearCaches must drop generateSpec so the next complete re-runs the hook"
    );
}


#[test]
fn completes_git_subcommands_from_ir() {
    let mut dir = Disk::new();
    dir.write_spec(
        "git",
        r#"{
          "names": ["git"],
          "description": "the stupid content tracker",
          "subcommands": [
            {"names": ["checkout"], "description": "Switch branches or restore working tree files"},
            {"names": ["commit"], "description": "Record changes to the repository"},
            {"names": ["cherry-pick"], "description": "Apply the changes introduced by some existing commits"},
            {"names": ["clone"], "description": "Clone a repository into a new directory"},
            {"names": ["status"], "description": "Show the working tree status"}
          ],
          "options": [{"names": ["--help"], "description": "Show help"}]
        }"#,
    );

    let mut engine = World::with_frecency(dir, Frecency::default());
    let result = engine
        .complete(CompleteRequest {
            buffer: "git ch".into(),
            cwd: dir_cwd(),
            cursor: None,
            ..CompleteRequest::default()
        })
        .expect("complete");

    let names: Vec<_> = result.suggestions.iter().map(|s| s.name.as_str()).collect();
    assert!(names.contains(&"checkout"), "got {names:?}");
    assert!(names.contains(&"cherry-pick"), "got {names:?}");
    assert!(!names.contains(&"status"), "got {names:?}");
    assert_eq!(result.search_term, "ch");
}

#[test]
fn history_merge_uses_active_argument_filter_strategy() {
    let mut dir = Disk::new();
    dir.write_spec(
        "argtool",
        r#"{
          "names":["argtool"],
          "filterStrategy":"fuzzy",
          "args":[{"name":"value"}]
        }"#,
    );
    let frecency = Frecency::from_commands(vec![("argtool target".into(), 100)]);
    let mut engine = World::with_frecency(dir, frecency);

    let prefix = engine
        .complete(CompleteRequest {
            buffer: "argtool tr".into(),
            fuzzy: false,
            include_history: true,
            ..CompleteRequest::default()
        })
        .expect("prefix completion");
    assert!(!prefix.fuzzy);
    assert!(!prefix.suggestions.iter().any(|item| item.kind == "history"));

    let history_only = engine
        .complete(CompleteRequest {
            buffer: "argtool tr".into(),
            fuzzy: false,
            history_only: true,
            ..CompleteRequest::default()
        })
        .expect("history-only completion");
    assert!(!history_only.fuzzy);
    assert!(!history_only.suggestions.iter().any(|item| item.name == "target"));

    let fuzzy = engine
        .complete(CompleteRequest {
            buffer: "argtool tr".into(),
            fuzzy: true,
            include_history: true,
            ..CompleteRequest::default()
        })
        .expect("fuzzy completion");
    assert!(fuzzy.fuzzy);
    assert!(fuzzy.suggestions.iter().any(|item| item.kind == "history"));
}

#[test]
fn completes_options_for_ls() {
    let mut dir = Disk::new();
    dir.write_spec(
        "ls",
        r#"{
          "names": ["ls"],
          "description": "List directory contents",
          "options": [
            {"names": ["-a"], "description": "Include directory entries whose names begin with a dot"},
            {"names": ["-l"], "description": "List in long format"},
            {"names": ["--color"], "description": "Colorize output"}
          ]
        }"#,
    );
    let mut engine = World::with_frecency(dir, Frecency::default());
    let result = engine
        .complete(CompleteRequest {
            buffer: "ls -".into(),
            cwd: "/".into(),
            cursor: None,
            ..CompleteRequest::default()
        })
        .expect("complete");
    let names: Vec<_> = result.suggestions.iter().map(|s| s.name.as_str()).collect();
    assert!(names.iter().any(|n| n.starts_with('-')), "got {names:?}");
}

#[test]
fn preserves_insert_metadata_and_auto_executes_exact_subcommands() {
    let mut dir = Disk::new();
    dir.write_spec(
        "git",
        r#"{
          "names": ["git"],
          "subcommands": [
            {"names": ["status"], "description": "Show status", "priority": 77,
             "icon": "📋"},
            {"names": ["commit"], "insertValue": "git commit", "args": [{"name": "message"}]}
          ],
          "options": [{"names": ["--message"], "requiresEquals": true,
                        "args": [{"name": "message"}]}]
        }"#,
    );
    let mut engine = World::with_frecency(dir, Frecency::default());

    let exact = engine
        .complete(CompleteRequest {
            buffer: "git status".into(),
            cwd: dir_cwd(),
            ..CompleteRequest::default()
        })
        .expect("complete");
    let status = exact
        .suggestions
        .iter()
        .find(|suggestion| suggestion.kind == "subcommand")
        .expect("status suggestion");
    assert_eq!(status.insert_value, None);
    assert_eq!(status.priority, 77);
    assert_eq!(status.icon.as_deref(), Some("📋"));

    let partial = engine
        .complete(CompleteRequest {
            buffer: "git co".into(),
            cwd: dir_cwd(),
            ..CompleteRequest::default()
        })
        .expect("complete");
    let commit = partial
        .suggestions
        .iter()
        .find(|suggestion| suggestion.name == "commit")
        .expect("commit suggestion");
    assert_eq!(commit.insert_value.as_deref(), Some("git commit"));

    let options = engine
        .complete(CompleteRequest {
            buffer: "git ".into(),
            cwd: dir_cwd(),
            ..CompleteRequest::default()
        })
        .expect("complete");
    let message = options
        .suggestions
        .iter()
        .find(|suggestion| suggestion.name == "--message")
        .expect("--message option");
    assert_eq!(message.separator_to_add.as_deref(), Some("="));
    assert!(message.should_add_space);
}

#[test]
fn completes_bundled_mkdir_ir() {
    let mut dir = Disk::new();
    dir.write_spec(
        "mkdir",
        r#"{
          "names": ["mkdir"],
          "description": "Make directories",
          "args": [{"name": "directory name", "templates": ["folders"]}],
          "options": [
            {"names": ["-p", "--parents"], "description": "No error if existing"},
            {"names": ["--help"], "description": "Display this help and exit"}
          ]
        }"#,
    );
    let mut engine = World::with_frecency(dir, Frecency::default());
    let result = engine
        .complete(CompleteRequest {
            buffer: "mkdir -".into(),
            cwd: "/".into(),
            cursor: None,
            ..CompleteRequest::default()
        })
        .expect("complete");
    let names: Vec<_> = result.suggestions.iter().map(|s| s.name.as_str()).collect();
    assert!(names.iter().any(|n| *n == "-p" || *n == "--parents"), "got {names:?}");
}

#[test]
fn completes_cd_folders() {
    let mut dir = Disk::new();
    dir.create_dir("src");
    dir.write("readme.md", "x");
    dir.write_spec(
        "cd",
        r#"{"names":["cd"],"args":[{"templates":["folders"]}]}"#,
    );
    let mut engine = World::with_frecency(dir, Frecency::default());
    let result = engine
        .complete(CompleteRequest {
            buffer: "cd s".into(),
            cwd: dir_cwd(),
            cursor: None,
            ..CompleteRequest::default()
        })
        .expect("complete");
    assert!(
        result.suggestions.iter().any(|s| s.name == "src/"),
        "{:?}",
        result.suggestions
    );
}

#[test]
fn completes_npm_run_scripts() {
    let mut dir = Disk::new();
    dir.write("package.json", r#"{"scripts":{"test":"vitest","lint":"eslint"}}"#);
    dir.write_spec(
        "npm",
        r#"{
          "names": ["npm"],
          "subcommands": [
            {"names": ["run", "run-script"], "args": [{"builtin": "npm-scripts"}]}
          ]
        }"#,
    );
    let mut engine = World::with_frecency(dir, Frecency::default());
    let result = engine
        .complete(CompleteRequest {
            buffer: "npm run t".into(),
            cwd: dir_cwd(),
            cursor: None,
            ..CompleteRequest::default()
        })
        .expect("complete");
    let names: Vec<_> = result.suggestions.iter().map(|s| s.name.as_str()).collect();
    assert_eq!(names, vec!["test"]);
}

#[test]
fn unknown_command_does_not_run_cobra_complete() {
    let mut dir = Disk::new();
    dir.write("fakecobra", "#!/bin/sh\nprintf 'alpha\\tfirst\\nalpaca\\n:4\\n'\n");
    let mut engine = World::with_frecency(dir, Frecency::default());
    let result = engine
        .complete(CompleteRequest {
            buffer: "/work/fakecobra al".into(),
            cwd: dir_cwd(),
            cursor: None,
            include_history: false,
            ..CompleteRequest::default()
        })
        .expect("complete");
    assert!(result.suggestions.is_empty(), "{:?}", result.suggestions);
}

#[test]
fn ranks_frequent_history_subcommand_first() {
    let mut dir = Disk::new();
    dir.write_spec(
        "git",
        r#"{
          "names": ["git"],
          "subcommands": [
            {"names": ["checkout"], "description": "Switch branches"},
            {"names": ["cherry-pick"], "description": "Apply commits"}
          ]
        }"#,
    );
    let frecency = Frecency::from_commands(vec![
        ("git checkout".into(), 10),
        ("git checkout".into(), 20),
        ("git checkout".into(), 30),
        ("git cherry-pick".into(), 1),
    ]);
    let mut engine = World::with_frecency(dir, frecency);
    let result = engine
        .complete(CompleteRequest {
            buffer: "git ch".into(),
            cwd: "/".into(),
            cursor: None,
            ..CompleteRequest::default()
        })
        .expect("complete");
    assert_eq!(result.suggestions[0].name, "checkout");
}

#[test]
fn chained_buffer_ranks_and_merges_history_for_the_current_command() {
    let mut dir = Disk::new();
    dir.write_spec(
        "git",
        r#"{
          "names": ["git"],
          "subcommands": [
            {"names": ["checkout"], "description": "Switch branches"},
            {"names": ["cherry-pick"], "description": "Apply commits"}
          ]
        }"#,
    );
    let frecency = Frecency::from_commands(vec![
        ("git checkout".into(), 10),
        ("git checkout".into(), 20),
        ("git checkout".into(), 30),
        ("git cherry-pick".into(), 1),
        ("git checkout -b feature".into(), 40),
    ]);
    let mut engine = World::with_frecency(dir, frecency);
    let result = engine
        .complete(CompleteRequest {
            buffer: "echo hello && git ch".into(),
            cwd: "/".into(),
            cursor: None,
            ..CompleteRequest::default()
        })
        .expect("complete");
    assert_eq!(result.suggestions[0].name, "checkout");
    assert_eq!(ranking_root_command("echo hello && git ch", None), "git");
    let history = result
        .suggestions
        .iter()
        .find(|suggestion| suggestion.kind == "history")
        .expect("history suffix for the current git command");
    assert_eq!(history.name, "checkout -b feature");
    assert!(!history.name.contains("echo"));
}

#[test]
fn first_token_history_keeps_search_term_for_insert() {
    let mut dir = Disk::new();
    dir.write_spec(
        "git",
        r#"{"names":["git"],"subcommands":[{"names":["checkout"]}]}"#,
    );
    let frecency = Frecency::from_commands(vec![("git checkout -b feature".into(), 40)]);
    let mut engine = World::with_frecency(dir, frecency);
    let result = engine
        .complete(CompleteRequest {
            buffer: "git".into(),
            cwd: "/".into(),
            cursor: None,
            suggest_first_token: true,
            ..CompleteRequest::default()
        })
        .expect("complete");
    assert_eq!(result.search_term, "git");
    let history = result
        .suggestions
        .iter()
        .find(|s| s.kind == "history")
        .expect("history suggestion");
    assert!(history.name.starts_with("git checkout"));
    assert!(history.name.starts_with(&result.search_term));
}

#[test]
fn history_only_uses_the_typed_command_prefix_as_a_suffix() {
    let mut dir = Disk::new();
    dir.write_spec(
        "git",
        r#"{"names":["git"],"subcommands":[{"names":["checkout"]}]}"#,
    );
    let frecency = Frecency::from_commands(vec![("git commit -m feature".into(), 40)]);
    let mut engine = World::with_frecency(dir, frecency);
    let result = engine
        .complete(CompleteRequest {
            buffer: "git co".into(),
            history_only: true,
            include_history: true,
            ..CompleteRequest::default()
        })
        .expect("complete");
    let history = result
        .suggestions
        .iter()
        .find(|suggestion| suggestion.kind == "history")
        .expect("history suggestion");
    assert_eq!(history.name, "commit -m feature");
    assert_eq!(history.insert_value.as_deref(), Some("commit -m feature"));
    assert!(!history.name.starts_with("git "));
}

#[test]
fn history_only_on_a_chained_buffer_uses_the_current_command_prefix() {
    let mut dir = Disk::new();
    dir.write_spec(
        "git",
        r#"{"names":["git"],"subcommands":[{"names":["checkout"]}]}"#,
    );
    let frecency = Frecency::from_commands(vec![("git commit -m feature".into(), 40)]);
    let mut engine = World::with_frecency(dir, frecency);
    let result = engine
        .complete(CompleteRequest {
            buffer: "echo x && git co".into(),
            history_only: true,
            include_history: true,
            ..CompleteRequest::default()
        })
        .expect("complete");
    let history = result
        .suggestions
        .iter()
        .find(|suggestion| suggestion.kind == "history")
        .expect("history suggestion");
    assert_eq!(history.name, "commit -m feature");
    assert_eq!(result.search_term, "co");
}

#[test]
fn history_only_keeps_raw_search_text_for_insertion() {
    let dir = Disk::new();
    let frecency = Frecency::from_commands(vec![("echo my file".into(), 40)]);
    let mut engine = World::with_frecency(dir, frecency);
    let result = engine
        .complete(CompleteRequest {
            buffer: r"echo my\ f".into(),
            history_only: true,
            include_history: true,
            ..CompleteRequest::default()
        })
        .expect("complete");
    assert_eq!(result.search_term, r"my\ f");
    assert_eq!(result.match_term, "my f");
    assert!(result.suggestions.iter().any(|item| item.name == "my file"));
}

#[test]
fn first_token_completion_defaults_off_but_explicit_true_still_works() {
    let mut dir = Disk::new();
    dir.write_spec( "git", r#"{"names":["git"]}"#);
    let mut engine = World::with_frecency(dir, Frecency::default());

    let default_result = engine
        .complete(CompleteRequest {
            buffer: "gi".into(),
            ..CompleteRequest::default()
        })
        .expect("complete");
    assert!(
        default_result.suggestions.is_empty(),
        "{:?}",
        default_result.suggestions
    );

    let explicit_result = engine
        .complete(CompleteRequest {
            buffer: "gi".into(),
            suggest_first_token: true,
            ..CompleteRequest::default()
        })
        .expect("complete");
    assert!(
        explicit_result
            .suggestions
            .iter()
            .any(|suggestion| suggestion.name == "git")
    );
}

#[test]
fn dangerous_argument_is_inherited_by_static_and_generated_rows() {
    let mut dir = Disk::new();
    dir.write_spec(
        "danger",
        r#"{
          "names":["danger"],
          "args":[
            {"name":"target","isDangerous":true,
             "suggestions":[{"names":["wipe"]}],
             "script":["printf","generated\\n"],"splitOn":"\n"}
          ]
        }"#,
    );
    let mut engine = World::with_frecency(dir, Frecency::default());

    let static_result = engine
        .complete(CompleteRequest {
            buffer: "danger wipe".into(),
            include_history: false,
            ..CompleteRequest::default()
        })
        .expect("complete");
    let static_row = static_result
        .suggestions
        .iter()
        .find(|suggestion| suggestion.name == "wipe")
        .expect("static dangerous row");
    assert!(static_row.is_dangerous);
    assert!(
        static_result
            .suggestions
            .iter()
            .all(|suggestion| suggestion.kind != "auto-execute")
    );

    let generated_result = engine
        .complete(CompleteRequest {
            buffer: "danger gen".into(),
            cwd: dir_cwd(),
            include_history: false,
            ..CompleteRequest::default()
        })
        .expect("complete");
    let generated_row = generated_result
        .suggestions
        .iter()
        .find(|suggestion| suggestion.name == "generated")
        .expect("generated dangerous row");
    assert!(generated_row.is_dangerous);
}

#[test]
fn nested_path_names_keep_directory_prefix() {
    let mut dir = Disk::new();
    dir.create_dir("src");
    dir.write("src/main.rs", "fn");
    dir.write_spec(
        "cat",
        r#"{"names":["cat"],"args":[{"templates":["filepaths"]}]}"#,
    );
    let mut engine = World::with_frecency(dir, Frecency::default());
    let result = engine
        .complete(CompleteRequest {
            buffer: "cat src/m".into(),
            cwd: dir_cwd(),
            cursor: None,
            ..CompleteRequest::default()
        })
        .expect("complete");
    assert!(
        result.suggestions.iter().any(|s| s.name == "src/main.rs"),
        "{:?}",
        result.suggestions
    );
    assert_eq!(result.search_term, "src/m");
    assert!(
        result
            .suggestions
            .iter()
            .all(|s| s.name.starts_with(&result.search_term))
    );
}

#[test]
fn first_token_does_not_list_subcommands() {
    let mut dir = Disk::new();
    dir.write_spec(
        "git",
        r#"{"names":["git"],"subcommands":[{"names":["checkout"]}]}"#,
    );
    let mut engine = World::with_frecency(dir, Frecency::default());
    let result = engine
        .complete(CompleteRequest {
            buffer: "git".into(),
            cwd: "/".into(),
            suggest_first_token: true,
            cursor: None,
            ..CompleteRequest::default()
        })
        .expect("complete");
    assert!(result.suggestions.iter().all(|s| s.name != "checkout"));
    let git = result
        .suggestions
        .iter()
        .find(|s| s.name == "git")
        .expect("first-token command row");
    assert_eq!(git.kind, "arg");
    assert_eq!(git.insert_value.as_deref(), Some("git"));
    assert!(!git.should_add_space);
    assert_eq!(result.search_term, "git");
}

#[test]
fn history_off_does_not_merge_history_lines() {
    let mut dir = Disk::new();
    dir.write_spec(
        "git",
        r#"{"names":["git"],"subcommands":[{"names":["checkout"]}]}"#,
    );
    let frecency = Frecency::from_commands(vec![("git checkout -b feature".into(), 40)]);
    let mut engine = World::with_frecency(dir, frecency);
    let result = engine
        .complete(CompleteRequest {
            buffer: "git".into(),
            cwd: "/".into(),
            cursor: None,
            include_history: false,
            ..CompleteRequest::default()
        })
        .expect("complete");
    assert!(
        result.suggestions.iter().all(|s| s.kind != "history"),
        "{:?}",
        result.suggestions
    );
}

// ---------------------------------------------------------------------------
// Generators
// ---------------------------------------------------------------------------
#[test]
fn script_generator_filters_prefix() {
    let mut world = World::load(Disk::new());
    let spec = Spec {
        names: vec!["demo".into()],
        args: arcs(vec![ArgSpec {
            script: vec!["printf".into(), "alpha\nbeta\nalpaca\n".into()],
            split_on: Some("\n".into()),
            ..ArgSpec::default()
        }]),
        ..Spec::default()
    };
    let suggestions = world.generate(&spec, &["demo".into(), "al".into()], "al", "/", false);
    let names: Vec<_> = suggestions.iter().map(|s| s.name.as_str()).collect();
    assert!(names.contains(&"alpha"), "{names:?}");
    assert!(names.contains(&"alpaca"), "{names:?}");
    assert!(!names.contains(&"beta"), "{names:?}");
}

#[test]
fn script_split_on_uses_the_compiler_separator() {
    let mut world = World::load(Disk::new());
    let spec = Spec {
        names: vec!["demo".into()],
        args: arcs(vec![ArgSpec {
            script: vec!["printf".into(), "alpha,beta,alpaca".into()],
            split_on: Some(",".into()),
            ..ArgSpec::default()
        }]),
        ..Spec::default()
    };
    let suggestions = world.generate(&spec, &["demo".into(), "al".into()], "al", "/", false);
    let names: Vec<_> = suggestions.iter().map(|s| s.name.as_str()).collect();
    assert!(names.contains(&"alpha"), "{names:?}");
    assert!(names.contains(&"alpaca"), "{names:?}");
    assert!(!names.contains(&"beta"), "{names:?}");
    assert!(!names.iter().any(|name| name.contains(',')), "{names:?}");
}

#[test]
fn empty_split_on_falls_back_to_newlines_and_trims_cr() {
    assert_eq!(
        filter_split("alpha\r\nbeta\r\nalpaca\r\n", "al", false, "")
            .iter()
            .map(|s| s.name.as_str())
            .collect::<Vec<_>>(),
        vec!["alpha", "alpaca"]
    );
    assert_eq!(
        filter_split("alpha\r\nbeta\r\nalpaca\r\n", "al", false, "\n")
            .iter()
            .map(|s| s.name.as_str())
            .collect::<Vec<_>>(),
        vec!["alpha", "alpaca"]
    );
}

#[test]
fn script_timeout_matches_webview_default_and_max_priority() {
    assert_eq!(DEFAULT_SCRIPT_TIMEOUT_MS, 5_000);
    assert_eq!(effective_script_timeout_ms(5_000, None, None), 5_000);
    assert_eq!(effective_script_timeout_ms(5_000, Some(6_000), None), 6_000);
    assert_eq!(effective_script_timeout_ms(5_000, Some(3_000), Some(7_000)), 7_000);
    // A negative setting/generator timeout never wraps into a huge Rust
    // duration; JS's setTimeout path observes the resulting zero.
    assert_eq!(effective_script_timeout_ms(-1_000, Some(-100), None), 0);
}

#[test]
fn npm_run_reads_package_scripts() {
    let mut world = World::load(Disk::new());
    world.disk.write("package.json", r#"{"scripts":{"test":"vitest","lint":"eslint .","build":"tsc"}}"#);
    let spec = Spec {
        names: vec!["npm".into()],
        args: arcs(vec![ArgSpec {
            builtin: Some(Builtin::NpmScripts),
            ..ArgSpec::default()
        }]),
        ..Spec::default()
    };
    let cwd = dir_cwd();
    let suggestions = world.generate(&spec, &["npm".into(), "run".into(), "t".into()], "t", &cwd, false);
    let names: Vec<_> = suggestions.iter().map(|s| s.name.as_str()).collect();
    assert_eq!(names, vec!["test"]);
    let again = world.generate(&spec, &["npm".into(), "run".into(), "t".into()], "t", &cwd, false);
    assert_eq!(again.iter().map(|s| s.name.as_str()).collect::<Vec<_>>(), vec!["test"]);
}

#[test]
fn git_ref_output_is_prefix_filtered() {
    let mut world = World::load(Disk::new());
    let spec = Spec {
        names: vec!["checkout".into()],
        args: arcs(vec![ArgSpec {
            script: vec!["printf".into(), "feature-x\nmain\norigin/foo\n".into()],
            split_on: Some("\n".into()),
            ..ArgSpec::default()
        }]),
        ..Spec::default()
    };
    let suggestions = world.generate(
        &spec,
        &["git".into(), "checkout".into(), "fea".into()],
        "fea",
        "/",
        false,
    );
    assert_eq!(
        suggestions.iter().map(|s| s.name.as_str()).collect::<Vec<_>>(),
        vec!["feature-x"]
    );
}

#[test]
fn git_alias_output_is_normalized_like_the_fig_generator() {
    let alias = parse_git_alias("alias.co checkout -b main").expect("alias");
    assert_eq!(alias.name, "co");
    assert_eq!(alias.description, "Alias for 'checkout -b main'");
    assert_eq!(alias.kind, "arg");
    assert!(parse_git_alias("not-an-alias").is_none());
}

#[test]
fn filepaths_with_query_term_still_list_the_typed_directory() {
    let mut world = World::load(Disk::new());
    world.disk.create_dir("src");
    world.disk.write("src/main.rs", "fn");
    world.disk.write("other.rs", "x");
    let arg = ArgSpec {
        templates: vec![Template::Filepaths],
        meta: SuggestionMeta {
            get_query_term: Some("/".into()),
            ..SuggestionMeta::default()
        },
        ..ArgSpec::default()
    };
    let suggestions = world.generate_for_arg_with_search_term(
        &arg,
        &["cat".into(), "src/m".into()],
        "m",
        "src/m",
        &dir_cwd(),
        false,
    );
    assert!(
        suggestions.iter().any(|item| item.name == "src/main.rs"),
        "{suggestions:?}"
    );
    assert!(
        suggestions.iter().all(|item| item.name != "other.rs"),
        "{suggestions:?}"
    );
    let row = suggestions
        .iter()
        .find(|item| item.name == "src/main.rs")
        .expect("prefixed path");
    assert_eq!(
        row.query_term.as_deref(),
        None,
        "prefixed native path rows keep the raw search term for insertion"
    );
}

#[test]
fn filepaths_with_query_term_after_trailing_slash_keep_raw_search() {
    let mut world = World::load(Disk::new());
    world.disk.create_dir("src");
    world.disk.write("src/main.rs", "fn");
    let arg = ArgSpec {
        templates: vec![Template::Filepaths],
        meta: SuggestionMeta {
            get_query_term: Some("/".into()),
            ..SuggestionMeta::default()
        },
        ..ArgSpec::default()
    };
    let suggestions = world.generate_for_arg_with_search_term(
        &arg,
        &["cat".into(), "src/".into()],
        "",
        "src/",
        &dir_cwd(),
        false,
    );
    let row = suggestions
        .iter()
        .find(|item| item.name == "src/main.rs")
        .expect("prefixed path");
    assert_eq!(row.query_term.as_deref(), None, "{suggestions:?}");
}

#[test]
fn filepaths_relist_when_the_typed_prefix_changes() {
    let mut world = World::load(Disk::new());
    world.disk.create_dir("src");
    world.disk.write("src/main.rs", "fn");
    world.disk.write("other.rs", "x");
    let cwd = dir_cwd();
    let arg = ArgSpec {
        templates: vec![Template::Filepaths],
        ..ArgSpec::default()
    };
    let first = world.generate_for_arg_with_search_term(&arg, &["cat".into(), "s".into()], "s", "s", &cwd, false);
    assert!(first.iter().any(|item| item.name == "src/"), "{first:?}");
    let second =
        world.generate_for_arg_with_search_term(&arg, &["cat".into(), "src/m".into()], "src/m", "src/m", &cwd, false);
    assert!(second.iter().any(|item| item.name == "src/main.rs"), "{second:?}");
    assert!(second.iter().all(|item| item.name != "other.rs"), "{second:?}");
}

#[test]
fn each_generator_keeps_its_own_script_and_templates() {
    let mut world = World::load(Disk::new());
    world.disk.create_dir("src");
    world.disk.write("src/main.rs", "fn");
    let cwd = dir_cwd();
    let arg = ArgSpec {
        templates: vec![Template::Filepaths],
        script: vec!["printf".into(), "from-flat\n".into()],
        split_on: Some("\n".into()),
        generators: arcs(vec![
            GeneratorSpec {
                templates: vec![Template::Filepaths],
                ..GeneratorSpec::default()
            },
            GeneratorSpec {
                script: vec!["printf".into(), "from-gen\n".into()],
                split_on: Some("\n".into()),
                ..GeneratorSpec::default()
            },
        ]),
        ..ArgSpec::default()
    };
    let suggestions = world.generate_for_arg_with_search_term(&arg, &["demo".into(), "".into()], "", "", &cwd, false);
    let names: Vec<_> = suggestions.iter().map(|item| item.name.as_str()).collect();
    assert_eq!(names.iter().filter(|name| **name == "src/").count(), 1, "{names:?}");
    assert!(names.contains(&"from-gen"), "{names:?}");
    assert!(!names.contains(&"from-flat"), "{names:?}");
}

#[test]
fn arg_level_templates_still_run_alongside_generators() {
    let mut world = World::load(Disk::new());
    world.disk.create_dir("src");
    let cwd = dir_cwd();
    let arg = ArgSpec {
        templates: vec![Template::Filepaths],
        generators: arcs(vec![GeneratorSpec {
            script: vec!["printf".into(), "from-gen\n".into()],
            split_on: Some("\n".into()),
            ..GeneratorSpec::default()
        }]),
        ..ArgSpec::default()
    };
    let suggestions = world.generate_for_arg_with_search_term(&arg, &["mount".into(), "".into()], "", "", &cwd, false);
    let names: Vec<_> = suggestions.iter().map(|item| item.name.as_str()).collect();
    assert!(names.contains(&"from-gen"), "{names:?}");
    assert!(names.contains(&"src/"), "{names:?}");
}

#[test]
fn filepaths_helper_extensions_keep_suffix_matches_and_folders() {
    let mut world = World::load(Disk::new());
    world.disk.write("keep.py", "");
    world.disk.write("drop.txt", "");
    world.disk.create_dir("src");
    let cwd = dir_cwd();
    let arg = ArgSpec {
        meta: SuggestionMeta {
            get_query_term: Some("/".into()),
            ..SuggestionMeta::default()
        },
        generators: arcs(vec![GeneratorSpec {
            templates: vec![Template::Filepaths],
            get_query_term: Some("/".into()),
            extensions: vec!["py".into()],
            file_priority: Some(76),
            ..GeneratorSpec::default()
        }]),
        ..ArgSpec::default()
    };
    let rows = world.generate_for_arg_with_search_term(&arg, &["python".into(), "".into()], "", "", &cwd, false);
    let names: Vec<_> = rows.iter().map(|row| row.name.as_str()).collect();
    assert!(names.contains(&"keep.py"), "{names:?}");
    assert!(names.contains(&"src/"), "{names:?}");
    assert!(!names.contains(&"drop.txt"), "{names:?}");
    let py = rows.iter().find(|row| row.name == "keep.py").unwrap();
    assert_eq!(py.priority, 76);
}

#[test]
fn filepaths_helper_matches_keeps_env_files() {
    let mut world = World::load(Disk::new());
    world.disk.write(".env", "");
    world.disk.write(".env.staging", "");
    world.disk.write("keep.py", "");
    world.disk.create_dir("src");
    let cwd = dir_cwd();
    let arg = ArgSpec {
        meta: SuggestionMeta {
            get_query_term: Some("/".into()),
            ..SuggestionMeta::default()
        },
        generators: arcs(vec![GeneratorSpec {
            templates: vec![Template::Filepaths],
            get_query_term: Some("/".into()),
            matches: Some(r"^\.env.*$".into()),
            ..GeneratorSpec::default()
        }]),
        ..ArgSpec::default()
    };
    let rows = world.generate_for_arg_with_search_term(&arg, &["dotenv-vault".into(), "".into()], "", "", &cwd, false);
    let names: Vec<_> = rows.iter().map(|row| row.name.as_str()).collect();
    assert!(names.contains(&".env"), "{names:?}");
    assert!(names.contains(&".env.staging"), "{names:?}");
    assert!(names.contains(&"src/"), "{names:?}");
    assert!(!names.contains(&"keep.py"), "{names:?}");
}

#[test]
fn generated_rows_carry_function_query_term() {
    let mut world = World::load(Disk::new());
    let arg = ArgSpec {
        js_get_query_term: Some("unused".into()),
        meta: SuggestionMeta {
            get_query_term: Some("/".into()),
            ..SuggestionMeta::default()
        },
        script: vec!["printf".into(), "main\n".into()],
        split_on: Some("\n".into()),
        ..ArgSpec::default()
    };
    let suggestions =
        world.generate_for_arg_with_search_term(&arg, &["cd".into(), "src/m".into()], "m", "src/m", "/", false);
    let row = suggestions.iter().find(|item| item.name == "main").expect("row");
    assert_eq!(row.query_term.as_deref(), Some("m"));
}

#[test]
fn generator_arg_id_treats_trailing_space_as_the_same_slot() {
    let arg = ArgSpec {
        name: "pathspec".into(),
        ..ArgSpec::default()
    };
    let after_space = generator_arg_id(&["git".into(), "add".into()], &arg, "/tmp", "");
    let while_typing = generator_arg_id(&["git".into(), "add".into(), "s".into()], &arg, "/tmp", "s");
    let other_command = generator_arg_id(&["git".into(), "rm".into()], &arg, "/tmp", "");
    assert_eq!(after_space, while_typing);
    assert_ne!(after_space, other_command);
}

#[test]
fn history_template_rows_are_arg_rows_in_index_order_filtered_by_query() {
    let mut world = World::load(Disk::new());
    let arg = ArgSpec {
        templates: vec![Template::History],
        ..ArgSpec::default()
    };
    let values = vec!["feature".to_string(), "main".to_string(), "fix/1".to_string()];
    let rows = world.generate_for_arg_with_history(&arg, &["git".into(), "checkout".into()], "", "", "/", false, &values);
    let names: Vec<_> = rows.iter().map(|row| row.name.as_str()).collect();
    assert_eq!(names, vec!["feature", "main", "fix/1"]);
    assert!(rows.iter().all(|row| row.kind == "arg"), "{rows:?}");

    let rows = world.generate_for_arg_with_history(
        &arg,
        &["git".into(), "checkout".into(), "f".into()],
        "f",
        "f",
        "/",
        false,
        &values,
    );
    let names: Vec<_> = rows.iter().map(|row| row.name.as_str()).collect();
    assert_eq!(names, vec!["feature", "fix/1"]);
}

#[test]
fn folders_template_lists_directories() {
    let mut world = World::load(Disk::new());
    world.disk.create_dir("src");
    world.disk.write("readme.md", "x");
    let spec = Spec {
        names: vec!["cd".into()],
        args: arcs(vec![ArgSpec {
            templates: vec![Template::Folders],
            ..ArgSpec::default()
        }]),
        ..Spec::default()
    };
    let suggestions = world.generate(
        &spec,
        &["cd".into(), "s".into()],
        "s",
        &dir_cwd(),
        false,
    );
    assert!(suggestions.iter().any(|s| s.name == "src/"), "{suggestions:?}");
    assert!(suggestions.iter().all(|s| s.kind != "file"));
}

#[test]
fn option_args_are_completed_after_the_flag() {
    let mut world = World::load(Disk::new());
    let spec = Spec {
        names: vec!["ls".into()],
        options: arcs(vec![OptionSpec {
            names: vec!["--color".into()],
            args: arcs(vec![ArgSpec {
                suggestions: vec![
                    SuggestionSeed {
                        names: vec!["always".into()],
                        description: String::new(),
                        ..SuggestionSeed::default()
                    },
                    SuggestionSeed {
                        names: vec!["never".into()],
                        description: String::new(),
                        ..SuggestionSeed::default()
                    },
                ],
                ..ArgSpec::default()
            }]),
            ..OptionSpec::default()
        }]),
        args: arcs(vec![ArgSpec {
            templates: vec![Template::Filepaths],
            ..ArgSpec::default()
        }]),
        ..Spec::default()
    };
    let suggestions = world.generate(&spec, &["ls".into(), "--color".into(), "a".into()], "a", "/", false);
    let names: Vec<_> = suggestions.iter().map(|s| s.name.as_str()).collect();
    assert_eq!(names, vec!["always"]);
}

#[test]
fn only_the_active_positional_arg_runs_its_generator() {
    let mut world = World::load(Disk::new());
    let spec = Spec {
        names: vec!["demo".into()],
        args: arcs(vec![
            ArgSpec {
                suggestions: vec![SuggestionSeed {
                    names: vec!["alpha".into()],
                    ..SuggestionSeed::default()
                }],
                ..ArgSpec::default()
            },
            ArgSpec {
                suggestions: vec![SuggestionSeed {
                    names: vec!["beta".into()],
                    ..SuggestionSeed::default()
                }],
                ..ArgSpec::default()
            },
        ]),
        ..Spec::default()
    };
    let suggestions = world.generate(&spec, &["demo".into(), "alpha".into(), "b".into()], "b", "/", false);
    assert_eq!(
        suggestions.iter().map(|item| item.name.as_str()).collect::<Vec<_>>(),
        vec!["beta"]
    );
}

#[test]
fn duplicate_static_and_builtin_rows_are_removed() {
    let mut world = World::load(Disk::new());
    let spec = Spec {
        names: vec!["demo".into()],
        args: arcs(vec![ArgSpec {
            suggestions: vec![
                SuggestionSeed {
                    names: vec!["same".into()],
                    ..SuggestionSeed::default()
                },
                SuggestionSeed {
                    names: vec!["same".into()],
                    ..SuggestionSeed::default()
                },
            ],
            ..ArgSpec::default()
        }]),
        ..Spec::default()
    };
    let suggestions = world.generate(&spec, &["demo".into(), "s".into()], "s", "/", false);
    assert_eq!(suggestions.iter().filter(|item| item.name == "same").count(), 1);
}

#[test]
fn js_post_process_maps_stdout_and_skips_empty_cwd() {
    let mut world = World::load(Disk::new());
    world.disk.write("hooks/demo_postProcess_0.js", "export default function(out) { return out.split('\\n').filter(Boolean).map((line) => ({ name: 'x-' + line })); }\n");
    let arg = ArgSpec {
        script: vec!["printf".into(), "alpha\nbeta\n".into()],
        js_post_process: Some("demo#postProcess#0".into()),
        ..ArgSpec::default()
    };
    let rows = world.enter("/", |world| world.generate_for_arg(&arg, &["demo".into()], "", "/", false));
    let names: Vec<_> = rows.iter().map(|row| row.name.as_str()).collect();
    assert!(names.contains(&"x-alpha"), "{names:?}");
    assert!(names.contains(&"x-beta"), "{names:?}");

    let empty = world.enter("", |world| world.generate_for_arg(&arg, &["demo".into()], "", "", false));
    assert!(empty.is_empty(), "{empty:?}");
}

#[test]
fn split_on_wins_over_post_process_like_the_webview() {
    // Fig's `getScriptSuggestions` is `if (splitOn) … else if (postProcess)`.
    // A spec that declares both never sees its hook run.
    let mut world = World::load(Disk::new());
    world.disk.write("hooks/demo_postProcess_0.js", "export default function() { return [{ name: 'from-hook' }]; }\n");
    let arg = ArgSpec {
        script: vec!["printf".into(), "alpha,beta".into()],
        split_on: Some(",".into()),
        js_post_process: Some("demo#postProcess#0".into()),
        ..ArgSpec::default()
    };
    let rows = world.enter("/", |world| world.generate_for_arg(&arg, &["demo".into()], "", "/", false));
    let names: Vec<_> = rows.iter().map(|row| row.name.as_str()).collect();
    assert_eq!(names, vec!["alpha", "beta"]);
}

#[test]
fn js_post_process_errors_become_empty() {
    let mut world = World::load(Disk::new());
    world.disk.write("hooks/demo_postProcess_0.js", "export default function() { throw new Error('boom'); }\n");
    let arg = ArgSpec {
        script: vec!["printf".into(), "alpha\n".into()],
        js_post_process: Some("demo#postProcess#0".into()),
        ..ArgSpec::default()
    };
    let rows = world.enter("/", |world| world.generate_for_arg(&arg, &["demo".into()], "", "/", false));
    assert!(rows.is_empty(), "{rows:?}");
}

#[test]
fn script_without_split_on_or_post_process_yields_no_rows() {
    // Fig `getScriptSuggestions`: `if (splitOn) … else if (postProcess) …`
    // and otherwise `result` stays `[]`. The four `oxlint` generators
    // shaped like this used to leak raw `oxlint --rules` lines.
    let mut world = World::load(Disk::new());
    let arg = ArgSpec {
        script: vec!["printf".into(), "alpha\n".into()],
        ..ArgSpec::default()
    };
    let cwd = dir_cwd();
    let rows = world.enter(&cwd, |world| world.generate_for_arg(&arg, &["demo".into()], "", &cwd, false));
    assert!(rows.is_empty(), "{rows:?}");
    let rows = world.generate_for_arg(&arg, &["demo".into()], "", &cwd, false);
    assert!(rows.is_empty(), "{rows:?}");
}

#[test]
fn scripts_need_a_cwd_like_every_fig_generator() {
    // `haveContextForGenerator` gates script and custom generators alike.
    let mut world = World::load(Disk::new());
    let arg = ArgSpec {
        script: vec!["printf".into(), "alpha\n".into()],
        split_on: Some("\n".into()),
        ..ArgSpec::default()
    };
    let rows = world.enter("", |world| world.generate_for_arg(&arg, &["demo".into()], "", "", false));
    assert!(rows.is_empty(), "{rows:?}");
    let rows = world.generate_for_arg(&arg, &["demo".into()], "", "", false);
    assert!(rows.is_empty(), "{rows:?}");
}

#[test]
fn git_branch_generator_omits_remote_head_symbolic_ref() {
    let rows = "main\t\norigin\trefs/remotes/origin/main\norigin/main\t\n";
    let suggestions = branch_lines_to_suggestions(rows, "", false);
    assert_eq!(
        suggestions.iter().map(|item| item.name.as_str()).collect::<Vec<_>>(),
        vec!["main", "origin/main"]
    );
}

#[test]
fn mtime_lru_keeps_fresh_and_evicts_stale() {
    let mut cache = MtimeLru::new(32);
    let t1: u64 = 0;
    cache.insert("a", Some(t1), "one".to_string());
    assert_eq!(cache.get("a", Some(t1)).map(String::as_str), Some("one"));
    assert_eq!(cache.get("a", Some(t1 + 1)), None);
    cache.insert("a", Some(t1 + 1), "two".to_string());
    assert_eq!(cache.get("a", Some(t1 + 1)).map(String::as_str), Some("two"));
    for i in 0..32 {
        cache.insert(&format!("k{i}"), Some(t1), i.to_string());
    }
    assert_eq!(cache.get("a", Some(t1 + 1)), None);
    assert_eq!(cache.get("k31", Some(t1)).map(String::as_str), Some("31"));
}

#[test]
fn find_git_dir_resolves_worktree_gitdir_file() {
    assert_eq!(gitdir_candidates("gitdir: /tmp/real.git\n", "/tmp/work"), vec!["/tmp/real.git"]);
    assert_eq!(
        gitdir_candidates("gitdir:\n gitdir: ../real.git \nother\ngitdir: late", "/tmp/work"),
        vec!["/tmp/work/../real.git"]
    );
    assert!(gitdir_candidates("no", "/tmp/work").is_empty());
}

#[test]
fn docker_exec_post_process_parses_json_lines() {
    let source = "export default t=>t.split(`\n`).map(n=>{try{let i=JSON.parse(n);return{name:i.Names,displayName:`${i.Names} (${i.Image})`,icon:\"fig://icon?type=docker\"}}catch(i){console.error(i)}});\n";
    let stdout = "{\"Names\":\"web\",\"Image\":\"nginx\"}\n{\"Names\":\"db\",\"Image\":\"postgres\"}\n";
    let interpreter = Interpreter::open().expect("interpreter");
    let words = ["docker".to_owned(), "exec".to_owned()];
    let rows = post_process(&interpreter, source, stdout, &words, 5000).expect("rows");
    let names: Vec<_> = rows.iter().map(|row| row.name.as_str()).collect();
    assert_eq!(names, vec!["web", "db"]);
    assert_eq!(rows[0].display_name.as_deref(), Some("web (nginx)"));
}

fn output(world: &mut World, line: &str, text: &str) {
    world.outputs.push((line.to_owned(), text.to_owned()));
}

#[test]
fn git_alias_builtin_reads_aliases_from_the_worktree_config() {
    let mut world = World::load(Disk::new());
    output(
        &mut world,
        "git --no-optional-locks config --get-regexp ^alias.",
        "alias.co checkout -b main\n",
    );
    let spec = Spec {
        names: vec!["git".into()],
        args: arcs(vec![ArgSpec {
            builtin: Some(Builtin::GitAliases),
            ..ArgSpec::default()
        }]),
        ..Spec::default()
    };
    let suggestions = world.generate(&spec, &["git".into()], "co", "/work", false);
    assert_eq!(
        suggestions
            .iter()
            .map(|suggestion| suggestion.name.as_str())
            .collect::<Vec<_>>(),
        vec!["co"]
    );
    assert_eq!(suggestions[0].description, "Alias for 'checkout -b main'");
}

#[test]
fn git_native_generators_use_their_narrow_data_sources() {
    let mut world = World::load(Disk::new());
    let cwd = dir_cwd();
    output(
        &mut world,
        "git for-each-ref --format=%(refname:short)%09%(symref) refs/heads refs/remotes",
        "main\t\nfeature\t\n",
    );
    output(&mut world, "git for-each-ref --format=%(refname:short) refs/tags", "v1\n");
    output(
        &mut world,
        "git --no-optional-locks log --all --pretty=format:%h%x09%s -n 100",
        "abc1234\tinitial commit\n",
    );
    output(&mut world, "git remote", "origin\n");
    output(
        &mut world,
        "git --no-optional-locks status --short --untracked-files=all",
        " M tracked.txt\n?? untracked.txt\nR  old -> \"u new\"\nx\n",
    );
    output(
        &mut world,
        "git --no-optional-locks stash list --pretty=format:%gd%x09%s",
        "stash@{0}\tWIP on main\n",
    );
    output(
        &mut world,
        "git for-each-ref --format=%(refname:short) refs/heads refs/tags",
        " main \n\nv1\n",
    );
    let arg = |builtin| ArgSpec {
        builtin: Some(builtin),
        ..ArgSpec::default()
    };
    let branches =
        world.generate_for_arg(&arg(Builtin::GitBranches), &["git".into()], "fea", &cwd, false);
    assert!(branches.iter().any(|item| item.name == "feature"), "{branches:?}");
    let tags = world.generate_for_arg(&arg(Builtin::GitTags), &["git".into()], "v", &cwd, false);
    assert!(tags.iter().any(|item| item.name == "v1"), "{tags:?}");
    let commits =
        world.generate_for_arg(&arg(Builtin::GitCommits), &["git".into()], "", &cwd, false);
    assert!(
        commits.iter().any(|item| item.description.contains("initial commit")),
        "{commits:?}"
    );
    let remotes =
        world.generate_for_arg(&arg(Builtin::GitRemotes), &["git".into()], "o", &cwd, false);
    assert_eq!(
        remotes.iter().map(|item| item.name.as_str()).collect::<Vec<_>>(),
        vec!["origin"]
    );
    let changed =
        world.generate_for_arg(&arg(Builtin::GitChangedFiles), &["git".into()], "u", &cwd, false);
    assert_eq!(
        changed.iter().map(|item| item.name.as_str()).collect::<Vec<_>>(),
        vec!["u new", "untracked.txt"]
    );
    let stashes =
        world.generate_for_arg(&arg(Builtin::GitStashes), &["git".into()], "", &cwd, false);
    assert_eq!(stashes[0].name, "stash@{0}");
    assert_eq!(stashes[0].kind, "stash");
    let refs = world.generate_for_arg(&arg(Builtin::GitRefs), &["git".into()], "", &cwd, false);
    assert_eq!(refs.iter().map(|item| item.name.as_str()).collect::<Vec<_>>(), vec!["main", "v1"]);
}

#[test]
fn failed_git_commands_give_no_rows() {
    let mut world = World::load(Disk::new());
    let arg = ArgSpec { builtin: Some(Builtin::GitTags), ..ArgSpec::default() };
    assert!(world.generate_for_arg(&arg, &["git".into()], "", "/work", false).is_empty());
    let arg = ArgSpec { builtin: Some(Builtin::NpmDeps), ..ArgSpec::default() };
    assert!(world.generate_for_arg(&arg, &["npm".into()], "", "/work", false).is_empty());
    world.disk.write(
        "package.json",
        r#"{"dependencies":{"b":"1","a":"2"},"devDependencies":{"a":"1","c":"1"}}"#,
    );
    world.session = GeneratorSession::default();
    let rows = world.generate_for_arg(&arg, &["npm".into()], "", "/work", false);
    let names: Vec<_> = rows.iter().map(|row| row.name.as_str()).collect();
    assert_eq!(names, vec!["a", "b", "c"]);
    assert!(rows.iter().all(|row| row.description == "dependency"));
    world.disk.write("package.json", "not json");
    world.session = GeneratorSession::default();
    assert!(world.generate_for_arg(&arg, &["npm".into()], "", "/work", false).is_empty());
}

#[test]
fn empty_generator_result_does_not_retrigger_on_the_next_keystroke() {
    let mut world = World::load(Disk::new());
    let arg = ArgSpec {
        name: "empty-retrigger".into(),
        script: vec!["sh".into(), "-c".into(), "true".into()],
        ..ArgSpec::default()
    };
    let first = world.generate_for_arg(&arg, &["cmd".into(), "a".into()], "a", "/work", false);
    let second = world.generate_for_arg(&arg, &["cmd".into(), "ab".into()], "ab", "/work", false);
    assert!(first.is_empty(), "{first:?}");
    assert!(second.is_empty(), "{second:?}");
    assert_eq!(world.runs, 1);
}

#[test]
fn trailing_space_keeps_the_same_generator_arg_as_the_typed_token() {
    let mut world = World::load(Disk::new());
    output(&mut world, "sh -c list", "src\n");
    let arg = ArgSpec {
        name: "trailing-space-arg-id".into(),
        script: vec!["sh".into(), "-c".into(), "list".into()],
        split_on: Some("\n".into()),
        ..ArgSpec::default()
    };
    let first = world.generate_for_arg(&arg, &["git".into(), "add".into()], "", "/work", false);
    let second =
        world.generate_for_arg(&arg, &["git".into(), "add".into(), "s".into()], "s", "/work", false);
    assert!(first.iter().any(|row| row.name == "src"), "{first:?}");
    assert!(second.iter().any(|row| row.name == "src"), "{second:?}");
    assert_eq!(world.runs, 1);
}

#[test]
fn debounced_generator_with_a_query_term_withholds_stale_rows_while_waiting() {
    fn run(world: &mut World, arg: &ArgSpec, tokens: &[&str], term: &str) -> (Vec<String>, bool) {
        let tokens: Vec<String> = tokens.iter().map(|token| (*token).to_string()).collect();
        let rows = world.generate_for_arg(arg, &tokens, term, "/work", false);
        let names: Vec<String> = rows.iter().map(|row| row.name.clone()).collect();
        (names, world.pending.0)
    }
    fn debounced(name: &str, separator: Option<&str>) -> ArgSpec {
        ArgSpec {
            name: name.into(),
            script: vec!["sh".into(), "-c".into(), "list".into()],
            split_on: Some("\n".into()),
            debounce_ms: Some(200),
            meta: SuggestionMeta {
                get_query_term: separator.map(str::to_owned),
                ..SuggestionMeta::default()
            },
            ..ArgSpec::default()
        }
    }
    let mut world = World::load(Disk::new());
    output(&mut world, "sh -c list", "alpha\nbeta\n");
    let with_query_term = debounced("query-term-debounce", Some("/"));
    let (names, pending) = run(&mut world, &with_query_term, &["tool"], "");
    assert!(pending);
    assert_eq!(world.pending.1, Some(200));
    assert!(names.is_empty(), "{names:?}");
    let (names, pending) = run(&mut world, &with_query_term, &["tool"], "");
    assert!(!pending);
    assert_eq!(names, vec!["alpha", "beta"]);
    let (names, pending) = run(&mut world, &with_query_term, &["tool", "a"], "a");
    assert!(pending);
    assert!(names.is_empty(), "{names:?}");

    let without_query_term = debounced("plain-debounce", None);
    world.session = GeneratorSession::default();
    let _ = run(&mut world, &without_query_term, &["tool"], "");
    let (names, _) = run(&mut world, &without_query_term, &["tool"], "");
    assert_eq!(names, vec!["alpha", "beta"]);
    let (names, pending) = run(&mut world, &without_query_term, &["tool", "a"], "a");
    assert!(pending);
    assert_eq!(names, vec!["alpha"]);
}

#[test]
fn different_subcommands_do_not_share_a_generator_session() {
    let mut world = World::load(Disk::new());
    let arg = ArgSpec {
        name: "pathspec".into(),
        script: vec!["sh".into(), "-c".into(), "true".into()],
        ..ArgSpec::default()
    };
    let _ = world.generate_for_arg(&arg, &["git".into(), "add".into()], "", "/work", false);
    let _ = world.generate_for_arg(&arg, &["git".into(), "rm".into()], "", "/work", false);
    assert_eq!(world.runs, 2);
}

#[test]
fn js_custom_and_cache_avoid_repeat_spawns() {
    let mut world = World::load(Disk::new());
    world.custom.push((
        "demo#custom#0".into(),
        vec![Suggestion::new("from-custom", "", "arg").with_insert_value("from-custom")],
    ));
    let arg = ArgSpec {
        js_custom: Some("demo#custom#0".into()),
        cache_key: Some("custom".into()),
        cache_ttl_ms: Some(60_000),
        ..ArgSpec::default()
    };
    for _ in 0..2 {
        world.session = GeneratorSession::default();
        let rows = world
            .enter("/work", |world| world.generate_for_arg(&arg, &["demo".into()], "", "/work", false));
        assert_eq!(
            rows.iter().map(|row| row.name.as_str()).collect::<Vec<_>>(),
            vec!["from-custom"]
        );
    }
    assert_eq!(world.runs, 1);
}

#[test]
fn cached_script_rows_are_refiltered_when_the_query_changes() {
    let mut world = World::load(Disk::new());
    world.disk.write(
        "hooks/demo_postProcess_0.js",
        "export default function(out) { return out.split('\\n').filter(Boolean).map((line) => ({ name: line })); }\n",
    );
    output(&mut world, "sh -c list", "web\napi\nwest\n");
    let arg = ArgSpec {
        script: vec!["sh".into(), "-c".into(), "list".into()],
        js_post_process: Some("demo#postProcess#0".into()),
        cache_key: Some("rows".into()),
        cache_ttl_ms: Some(60_000),
        ..ArgSpec::default()
    };
    for query in ["w", "we"] {
        world.session = GeneratorSession::default();
        let rows = world.enter("/work", |world| {
            world.generate_for_arg(&arg, &["demo".into(), query.into()], query, "/work", false)
        });
        assert_eq!(
            rows.iter().map(|row| row.name.as_str()).collect::<Vec<_>>(),
            vec!["web", "west"]
        );
    }
    assert_eq!(world.runs, 1);
}

#[test]
fn script_cache_without_a_cache_key_does_not_include_the_typed_token() {
    let mut world = World::load(Disk::new());
    output(&mut world, "sh -c list", "web\napi\n");
    let arg = ArgSpec {
        script: vec!["sh".into(), "-c".into(), "list".into()],
        split_on: Some("\n".into()),
        cache_ttl_ms: Some(60_000),
        ..ArgSpec::default()
    };
    for query in ["w", "we"] {
        world.session = GeneratorSession::default();
        let rows = world.enter("/work", |world| {
            world.generate_for_arg(&arg, &["demo".into(), query.into()], query, "/work", false)
        });
        assert!(rows.iter().any(|row| row.name == "web"), "{rows:?}");
    }
    assert_eq!(world.runs, 1);
}

#[test]
fn js_script_generators_without_a_cache_key_do_not_share_an_entry() {
    let mut world = World::load(Disk::new());
    world.disk.write(
        "hooks/kdemo_script_0.js",
        "export default function() { return ['printf', 'pod-alpha\\npod-beta\\n']; }\n",
    );
    world.disk.write(
        "hooks/kdemo_script_1.js",
        "export default function() { return ['printf', 'node-1\\nnode-2\\n']; }\n",
    );
    fn generator(hook: &str) -> ArgSpec {
        ArgSpec {
            js_script: Some(hook.into()),
            split_on: Some("\n".into()),
            cache_ttl_ms: Some(3_600_000),
            cache_strategy: Some("stale-while-revalidate".into()),
            ..ArgSpec::default()
        }
    }
    let pods = generator("kdemo#script#0");
    let nodes = generator("kdemo#script#1");
    let first = world.enter("/work", |world| {
        world.generate_for_arg(&pods, &["kdemo".into(), "pods".into()], "", "/work", false)
    });
    let second = world.enter("/work", |world| {
        world.generate_for_arg(&nodes, &["kdemo".into(), "nodes".into()], "", "/work", false)
    });
    assert_eq!(
        first.iter().map(|row| row.name.as_str()).collect::<Vec<_>>(),
        vec!["pod-alpha", "pod-beta"]
    );
    assert_eq!(
        second.iter().map(|row| row.name.as_str()).collect::<Vec<_>>(),
        vec!["node-1", "node-2"]
    );
}

#[test]
fn script_cache_is_keyed_on_the_directory_even_without_cache_by_directory() {
    let mut world = World::load(Disk::new());
    output(&mut world, "sh -c pwd", "/work/here\n");
    let arg = ArgSpec {
        script: vec!["sh".into(), "-c".into(), "pwd".into()],
        split_on: Some("\n".into()),
        cache_ttl_ms: Some(60_000),
        ..ArgSpec::default()
    };
    for cwd in ["/work/a", "/work/b", "/work/a"] {
        world.session = GeneratorSession::default();
        let rows =
            world.enter(cwd, |world| world.generate_for_arg(&arg, &["demo".into()], "", cwd, false));
        assert_eq!(rows.len(), 1);
    }
    assert_eq!(world.runs, 2);
}

#[test]
fn cached_script_output_is_reshaped_by_post_process_with_the_current_tokens() {
    let mut world = World::load(Disk::new());
    world.disk.write(
        "hooks/demo_postProcess_0.js",
        "export default function(out, tokens) { return out.split('\\n').filter(Boolean).map((line) => ({ name: line + '@' + tokens[tokens.length - 1] })); }\n",
    );
    output(&mut world, "sh -c list", "row\n");
    let arg = ArgSpec {
        script: vec!["sh".into(), "-c".into(), "list".into()],
        js_post_process: Some("demo#postProcess#0".into()),
        cache_ttl_ms: Some(60_000),
        ..ArgSpec::default()
    };
    for word in ["one", "two"] {
        world.session = GeneratorSession::default();
        let rows = world.enter("/work", |world| {
            world.generate_for_arg(&arg, &["demo".into(), word.into()], "", "/work", false)
        });
        assert_eq!(
            rows.iter().map(|row| row.name.clone()).collect::<Vec<_>>(),
            vec![format!("row@{word}")]
        );
    }
    assert_eq!(world.runs, 1);
}

#[test]
fn triggers_follow_their_rules() {
    fn rule(on: &str, string: Option<Json>, length: Option<i64>) -> GeneratorTrigger {
        GeneratorTrigger { on: on.into(), js_trigger: Some("hook".into()), string, length }
    }
    let decide = |rule: Option<&GeneratorTrigger>, now: &str, before: &str, answer: Option<bool>| {
        should_trigger(rule, false, false, now, before, false, answer)
    };
    assert!(should_trigger(None, false, true, "a", "a", false, None));
    assert!(should_trigger(None, true, false, "a", "a", false, None));
    assert!(should_trigger(None, false, false, "b", "a", true, None));
    assert!(!should_trigger(None, false, false, "b", "a", false, None));
    let function = rule("function", None, None);
    assert!(decide(Some(&function), "a", "a", None));
    assert!(!decide(Some(&function), "a", "b", Some(false)));
    let string = rule("string", Some(Json::Text("/".into())), None);
    assert!(decide(Some(&string), "a/b", "ab", None));
    assert!(!decide(Some(&string), "a/bc", "a/b", None));
    let threshold = rule("threshold", None, Some(2));
    assert!(decide(Some(&threshold), "abc", "ab", None));
    assert!(!decide(Some(&threshold), "abcd", "abc", None));
    let words = rule(
        "match",
        Some(Json::List(vec![Json::Text("x".into()), Json::Text("y".into())])),
        None,
    );
    assert!(decide(Some(&words), "y", "x", None));
    assert!(!decide(Some(&words), "p", "q", None));
    let change = rule("change", None, None);
    assert!(decide(Some(&change), "a", "b", None));
    assert!(!decide(Some(&change), "a", "a", None));
    assert_eq!(last_index("x😀y😀", "😀"), 4);
    assert_eq!(last_index("x😀", ""), 3);
    assert_eq!(last_index("x", "y"), -1);
}

#[test]
fn pending_generators_are_told_once() {
    let mut pending = PendingGenerators { waiting: true, debounce_ms: 0 };
    assert_eq!(take_pending_generators(&mut pending), (true, Some(200)));
    assert_eq!(take_pending_generators(&mut pending), (false, None));
    let mut pending = PendingGenerators { waiting: true, debounce_ms: 350 };
    assert_eq!(take_pending_generators(&mut pending), (true, Some(350)));
}

#[test]
fn generators_cover_the_templates_of_their_argument() {
    let own = ArgSpec {
        templates: vec![Template::Folders],
        script: vec!["ls".into()],
        cache_ttl_ms: Some(7),
        ..ArgSpec::default()
    };
    let generators = effective_generators(&own);
    assert_eq!(generators.len(), 1);
    assert_eq!(generators[0].templates, vec![Template::Folders]);
    assert_eq!(generators[0].script, vec!["ls"]);
    assert_eq!(generators[0].cache_ttl_ms, Some(7));
    let mixed = ArgSpec {
        templates: vec![Template::Folders, Template::History],
        generators: arcs(vec![GeneratorSpec {
            templates: vec![Template::Folders],
            ..GeneratorSpec::default()
        }]),
        ..ArgSpec::default()
    };
    let generators = effective_generators(&mixed);
    assert_eq!(generators.len(), 2);
    assert_eq!(generators[1].templates, vec![Template::History]);
}

#[test]
fn directory_rows_are_not_stamped_with_the_tail_of_the_term() {
    assert!(path_row_already_includes_directory_prefix("src/main.rs", "file", "src/m", "m"));
    assert!(!path_row_already_includes_directory_prefix("src/main.rs", "arg", "src/m", "m"));
    assert!(!path_row_already_includes_directory_prefix("main.rs", "file", "src/m", "m"));
    assert!(!path_row_already_includes_directory_prefix("main.rs", "file", "m", "m"));
    assert!(!path_row_already_includes_directory_prefix("src/main.rs", "file", "src/m", "x"));
}

// ---------------------------------------------------------------------------
// Specs
// ---------------------------------------------------------------------------
#[test]
fn loads_git_fixture_subcommands() {
    let mut dir = Disk::new();
    dir.write_spec(
        "git",
        r#"{
          "names": ["git"],
          "description": "the stupid content tracker",
          "subcommands": [
            {"names": ["checkout"], "description": "Switch branches"},
            {"names": ["commit"], "description": "Record changes"},
            {"names": ["cherry-pick"], "description": "Apply commits"}
          ],
          "options": [{"names": ["--help"], "description": "Show help"}]
        }"#,
    );
    let mut registry = World::load(dir);
    let git = registry.get("git").expect("git spec");
    assert!(git.find_subcommand("checkout").is_some());
    assert!(git.find_subcommand("cherry-pick").is_some());
    assert!(git.find_subcommand("status").is_none());
    assert_eq!(git.options[0].names, vec!["--help"]);
    let cloned = copy_spec(&git);
    assert!(
        Arc::ptr_eq(&cloned.subcommands[0], &git.subcommands[0]),
        "cloning a spec must share nested subcommand trees"
    );
    assert!(
        Arc::ptr_eq(&cloned.options[0], &git.options[0]),
        "cloning a spec must share option trees"
    );
}

#[test]
fn args_are_shared_arcs() {
    let path = Arc::new(ArgSpec {
        name: "path".into(),
        templates: vec![Template::Folders],
        ..ArgSpec::default()
    });
    let mkdir = Spec {
        names: vec!["mkdir".into()],
        args: vec![Arc::clone(&path)],
        ..Spec::default()
    };
    assert!(std::ptr::eq(mkdir.args[0].as_ref(), path.as_ref()));
    assert!(Arc::ptr_eq(&copy_spec(&mkdir).args[0], &path));
}

#[test]
fn nested_subcommands_are_shared_arcs() {
    let checkout = Arc::new(Spec {
        names: vec!["checkout".into()],
        description: "switch".into(),
        ..Spec::default()
    });
    let git = Spec {
        names: vec!["git".into()],
        subcommands: vec![Arc::clone(&checkout)],
        ..Spec::default()
    };
    let found = git.find_subcommand("checkout").expect("child");
    assert!(std::ptr::eq(found, checkout.as_ref()));
    assert!(Arc::ptr_eq(&copy_spec(&git).subcommands[0], &checkout));
}

#[test]
fn options_are_shared_arcs() {
    let help = Arc::new(OptionSpec {
        names: vec!["--help".into()],
        description: "Show help".into(),
        ..OptionSpec::default()
    });
    let gcc = Spec {
        names: vec!["gcc".into()],
        options: vec![Arc::clone(&help)],
        ..Spec::default()
    };
    assert!(std::ptr::eq(gcc.options[0].as_ref(), help.as_ref()));
    assert!(Arc::ptr_eq(&copy_spec(&gcc).options[0], &help));
}

#[test]
fn loads_mkdir_fixture_options_and_folder_template() {
    let mut dir = Disk::new();
    dir.write_spec(
        "mkdir",
        r#"{
          "names": ["mkdir"],
          "description": "Make directories",
          "args": [{"name": "directory name", "templates": ["folders"]}],
          "options": [
            {"names": ["-p", "--parents"], "description": "No error if existing"},
            {"names": ["-v", "--verbose"], "description": "Print a message"}
          ]
        }"#,
    );
    let mut registry = World::load(dir);
    let mkdir = registry.get("mkdir").expect("mkdir spec");
    assert_eq!(mkdir.args[0].templates, vec![Template::Folders]);
    assert!(mkdir.options.iter().any(|opt| opt.names.iter().any(|n| n == "-p")));
    let cloned = copy_spec(&mkdir);
    assert!(
        Arc::ptr_eq(&cloned.args[0], &mkdir.args[0]),
        "cloning a spec must share argument trees"
    );
}

#[test]
fn command_names_matching_skips_exact_and_matches_prefix() {
    let mut dir = Disk::new();
    dir.write_spec( "git", r#"{"names":["git"],"description":"git"}"#);
    dir.write_spec( "gzip", r#"{"names":["gzip"],"description":"gzip"}"#);
    let registry = World::load(dir);
    assert_eq!(registry.registry.loaded_spec_count(), 0);
    let names: Vec<_> = registry.registry
        .command_names_matching("gi")
        .into_iter()
        .map(|(n, _)| n)
        .collect();
    assert_eq!(names, vec!["git"]);
    assert!(registry.registry.command_names_matching("git").is_empty());
    assert_eq!(registry.registry.loaded_spec_count(), 0);
    let gz: Vec<_> = registry.registry
        .command_names_matching("gz")
        .into_iter()
        .map(|(n, _)| n)
        .collect();
    assert_eq!(gz, vec!["gzip"]);
    assert_eq!(registry.registry.loaded_spec_count(), 0);
}

#[test]
fn spec_cache_evicts_oldest_not_all() {
    let mut dir = Disk::new();
    for i in 0..50 {
        dir.write_spec( &format!("cmd{i}"), &format!(r#"{{"names":["cmd{i}"]}}"#));
    }
    let mut registry = World::load(dir);
    for i in 0..48 {
        assert!(registry.get(&format!("cmd{i}")).is_some());
    }
    assert_eq!(registry.registry.loaded_spec_count(), 48);
    assert!(registry.registry.is_cached("cmd0"));
    assert!(registry.get("cmd48").is_some());
    assert_eq!(registry.registry.loaded_spec_count(), 48);
    assert!(!registry.registry.is_cached("cmd0"));
    assert!(registry.registry.is_cached("cmd1"));
    assert!(registry.registry.is_cached("cmd48"));
    assert!(registry.get("cmd0").is_some());
    assert!(registry.registry.is_cached("cmd0"));
    assert!(!registry.registry.is_cached("cmd1"));
}

#[test]
fn spec_cache_lru_keeps_recently_used() {
    let mut dir = Disk::new();
    for i in 0..50 {
        dir.write_spec( &format!("cmd{i}"), &format!(r#"{{"names":["cmd{i}"]}}"#));
    }
    let mut registry = World::load(dir);
    for i in 0..48 {
        assert!(registry.get(&format!("cmd{i}")).is_some());
    }
    assert!(registry.get("cmd0").is_some());
    assert!(registry.get("cmd48").is_some());
    assert!(registry.registry.is_cached("cmd0"));
    assert!(!registry.registry.is_cached("cmd1"));
    assert!(registry.registry.is_cached("cmd48"));
}

#[test]
fn alias_does_not_overwrite_an_existing_spec_file() {
    let mut dir = Disk::new();
    dir.write_spec(
        "g",
        r#"{"names":["g"],"description":"the g tool","subcommands":[{"names":["only-in-g"]}]}"#,
    );
    dir.write_spec(
        "git",
        r#"{"names":["git","g"],"description":"git","subcommands":[{"names":["checkout"]}]}"#,
    );
    let mut registry = World::load(dir);
    let git = registry.get("git").expect("git");
    assert!(git.find_subcommand("checkout").is_some());
    let g = registry.get("g").expect("g");
    assert!(g.find_subcommand("only-in-g").is_some(), "{g:?}");
    assert!(g.find_subcommand("checkout").is_none());
}

#[test]
fn fuzzy_name_match_keeps_alphabetically_first_fifty() {
    let mut dir = Disk::new();
    for i in 0..60 {
        dir.write_spec(
            &format!("test{i:02}"),
            &format!(r#"{{"names":["test{i:02}"]}}"#),
        );
    }
    let registry = World::load(dir);
    let names: Vec<_> = registry.registry
        .command_names_matching_with("te", true)
        .into_iter()
        .map(|(n, _)| n)
        .collect();
    assert_eq!(names.len(), 50);
    assert_eq!(names[0], "test00");
    assert_eq!(names[49], "test49");
    assert!(!names.iter().any(|n| n == "test59"));
}

#[test]
fn indexes_alias_names() {
    let mut dir = Disk::new();
    dir.write_spec(
        "npm",
        r#"{
          "names": ["npm"],
          "subcommands": [
            {"names": ["install", "i", "add"], "description": "Install a package"}
          ]
        }"#,
    );
    let mut registry = World::load(dir);
    let npm = registry.get("npm").unwrap();
    assert!(npm.find_subcommand("i").is_some());
    assert!(npm.find_subcommand("add").is_some());
}

#[test]
fn command_map_loads_versioned_alias_and_hides_nested_implementation_files() {
    let mut dir = Disk::new();
    dir.write_spec(
        "docker",
        r#"{
          "names":["docker"],
          "subcommands":[
            {"names":["compose"],"loadSpec":"docker-compose"},
            {"names":["domains"],"loadSpec":"gcloud/domains"}
          ]
        }"#,
    );
    dir.write_spec(
        "docker-compose",
        r#"{"names":["docker-compose"],"subcommands":[{"names":["up"]}]}"#,
    );
    dir.write_spec(
        "gcloud",
        r#"{"names":["gcloud"],"subcommands":[{"names":["domains"],"loadSpec":"gcloud/domains"}]}"#,
    );
    dir.create_dir("gcloud");
    dir.write("gcloud/domains.json", r#"{"names":["domains"],"subcommands":[{"names":["list"]}]}"#);
    dir.create_dir("heroku");
    dir.write("heroku/8.0.0.json", r#"{"names":["heroku"],"subcommands":[{"names":["old"]}]}"#);
    dir.write("heroku/8.6.0.json", r#"{"names":["heroku"],"subcommands":[{"names":["new"]}]}"#);
    dir.write("index.json", r#"{"completions":["docker","gcloud","heroku"],"files":{"docker":"docker.json","gcloud":"gcloud.json","heroku":"heroku/8.6.0.json"}}"#);

    let mut registry = World::load(dir);
    let names: Vec<_> = registry.registry
        .command_names_matching("")
        .into_iter()
        .map(|(name, _)| name)
        .collect();
    assert!(names.iter().any(|name| name == "heroku"));
    assert!(!names.iter().any(|name| name == "domains"));

    {
        let docker = registry.get("docker").expect("docker");
        let compose = docker.find_subcommand("compose").expect("compose");
        assert!(compose.find_subcommand("up").is_some());
        let domains = docker.find_subcommand("domains").expect("domains");
        assert!(domains.find_subcommand("list").is_some());
    }
    let heroku = registry.get("heroku").expect("heroku");
    assert!(heroku.find_subcommand("new").is_some());
    assert!(heroku.find_subcommand("old").is_none());
    assert!(!registry.registry.command_names_matching("dom").iter().any(|(name, _)| name == "domains"));
}

#[test]
fn command_map_keeps_canonical_paths_and_filters_unmapped_spec_aliases() {
    let mut dir = Disk::new();
    dir.write_spec( "appwrite", r#"{"names":["index","internal"]}"#);
    dir.write_spec(
        "autojump",
        r#"{"names":["autojump"],"description":"canonical"}"#,
    );
    dir.write_spec( "j", r#"{"names":["autojump"],"description":"alias file"}"#);
    dir.write("index.json", r#"{
          "files": {
            "appwrite": "appwrite.json",
            "index": "appwrite.json",
            "autojump": "autojump.json",
            "j": "j.json"
          }
        }"#);

    let mut registry = World::load(dir);
    {
        let appwrite = registry.get("appwrite").expect("appwrite");
        assert!(appwrite.has_name("appwrite"));
    }
    assert!(registry.get("internal").is_none());

    {
        let autojump = registry.get("autojump").expect("autojump");
        assert_eq!(autojump.description, "canonical");
    }
    let j = registry.get("j").expect("j");
    assert_eq!(j.description, "alias file");
}

#[test]
fn invalid_command_map_does_not_fallback_to_nested_files() {
    let mut dir = Disk::new();
    dir.create_dir("gcloud");
    dir.write("gcloud/domains.json", r#"{"names":["domains"]}"#);
    dir.write("index.json", r#"{"files":{"gcloud":"gcloud/missing.json"}}"#);

    let mut registry = World::load(dir);
    assert!(registry.registry.command_names_matching("").is_empty());
    assert!(registry.get("gcloud").is_none());
    assert!(registry.get("domains").is_none());
}

#[test]
fn node_load_spec_replaces_wrapper_fields_for_pass_and_chezmoi() {
    let mut dir = Disk::new();
    dir.write_spec(
        "pass",
        r#"{
          "names":["pass"],
          "subcommands":[{
            "names":["grep"],
            "description":"wrapper description",
            "args":[{"name":"pass-name"}],
            "loadSpec":"grep"
          }]
        }"#,
    );
    dir.write_spec(
        "grep",
        r#"{
          "names":["grep-target"],
          "description":"loaded description",
          "args":[{"name":"pattern"},{"name":"file"}]
        }"#,
    );
    dir.write_spec(
        "chezmoi",
        r#"{
          "names":["chezmoi"],
          "subcommands":[{
            "names":["git"],
            "description":"wrapper description",
            "args":[{"name":"source-dir"}],
            "loadSpec":"git"
          }]
        }"#,
    );
    dir.write_spec(
        "git",
        r#"{
          "names":["git-target"],
          "description":"loaded description",
          "args":[{"name":"command"}]
        }"#,
    );
    dir.write("index.json", r#"{"files":{"pass":"pass.json","chezmoi":"chezmoi.json"}}"#);

    let mut registry = World::load(dir);
    {
        let pass = registry.get("pass").expect("pass");
        let grep = pass.find_subcommand("grep").expect("grep");
        assert_eq!(grep.names, vec!["grep"]);
        assert_eq!(grep.description, "loaded description");
        assert_eq!(
            grep.args.iter().map(|arg| arg.name.as_str()).collect::<Vec<_>>(),
            vec!["pattern", "file"]
        );
    }

    let chezmoi = registry.get("chezmoi").expect("chezmoi");
    let git = chezmoi.find_subcommand("git").expect("git");
    assert_eq!(git.names, vec!["git"]);
    assert_eq!(git.description, "loaded description");
    assert_eq!(
        git.args.iter().map(|arg| arg.name.as_str()).collect::<Vec<_>>(),
        vec!["command"]
    );
}

#[test]
fn load_spec_cycle_and_missing_reference_are_safe() {
    let mut dir = Disk::new();
    dir.write_spec(
        "a",
        r#"{"names":["a"],"subcommands":[{"names":["b"],"loadSpec":"b"},{"names":["missing"],"loadSpec":"not-present"}],"args":[{"name":"missing arg","loadSpec":"not-present"},{"name":"cycle arg","loadSpec":"b"}]}"#,
    );
    dir.write_spec(
        "b",
        r#"{"names":["b"],"subcommands":[{"names":["a"],"loadSpec":"a"}],"args":[{"name":"cycle back","loadSpec":"a"}]}"#,
    );
    dir.write("index.json", r#"{"files":{"a":"a.json","b":"b.json"}}"#);

    let mut registry = World::load(dir);
    let a = registry.get("a").expect("a");
    let b = a.find_subcommand("b").expect("b");
    assert!(b.find_subcommand("a").is_some());
    assert!(a.find_subcommand("missing").is_some());
    assert!(a.args[0].resolved_spec.is_none());
    let cycle = a.args[1].resolved_spec.as_deref().expect("cycle target loads once");
    assert!(cycle.args[0].resolved_spec.is_none());
}

#[test]
fn resolves_static_argument_load_specs_for_args_and_options() {
    let mut dir = Disk::new();
    dir.write_spec(
        "tool",
        r#"{
          "names":["tool"],
          "args":[{"name":"datasource","loadSpec":"arg-target"}],
          "options":[{"names":["--config"],"args":[{"name":"file","loadSpec":"option-target"}]}]
        }"#,
    );
    dir.write_spec(
        "arg-target",
        r#"{"names":["arg-target"],"subcommands":[{"names":["list"]}]}"#,
    );
    dir.write_spec(
        "option-target",
        r#"{"names":["option-target"],"subcommands":[{"names":["show"]}]}"#,
    );

    let mut registry = World::load(dir);
    let tool = registry.get("tool").expect("tool");
    let arg_spec = tool.args[0].resolved_spec.as_deref().expect("argument target");
    assert!(arg_spec.find_subcommand("list").is_some());
    let option_arg_spec = tool.options[0].args[0]
        .resolved_spec
        .as_deref()
        .expect("option argument target");
    assert!(option_arg_spec.find_subcommand("show").is_some());
    assert!(matches!(tool.args[0].load_spec, Some(LoadSpec::Path(ref path)) if path == "arg-target"));
}

#[test]
fn resolves_inline_argument_load_spec_without_executing_code() {
    let mut dir = Disk::new();
    dir.write_spec(
        "dscl",
        r#"{
          "names":["dscl"],
          "args":[{"name":"datasource","loadSpec":{"names":["dscl"],"subcommands":[{"names":["list"]}]}}]
        }"#,
    );
    let mut registry = World::load(dir);
    let dscl = registry.get("dscl").expect("dscl");
    let Some(LoadSpec::Inline(loaded)) = dscl.args[0].load_spec.as_ref() else {
        panic!("expected inline loadSpec");
    };
    assert!(loaded.find_subcommand("list").is_some());
    let resolved = dscl.args[0].resolved_spec.as_deref().expect("resolved inline loadSpec");
    assert!(resolved.find_subcommand("list").is_some());
}

// ---------------------------------------------------------------------------
// Values from history
// ---------------------------------------------------------------------------
fn registry_with(specs: &[(&str, &str)]) -> World {
    let mut dir = Disk::new();
    for (name, spec) in specs {
        dir.write_spec(name, spec);
    }
    World::load(dir)
}

fn offered_values(
    store: &mut HistoryStore,
    world: &mut World,
    aliases: &str,
    slots: &[ArgSlot],
) -> Vec<String> {
    let mut answers =
        SpecAnswers { lookup: true, hooks: false, specs: Vec::new(), generated: Vec::new() };
    let aliases = parse_alias_map(aliases);
    loop {
        match store.arg_values(&answers, &aliases, slots) {
            Ok(values) => return values,
            Err(Need::Spec(name)) => {
                let spec = world.get(&name);
                answers.specs.push((name, spec));
            },
            Err(Need::Generate(_)) => unreachable!(),
        }
    }
}

const CURL: &str = r#"{
  "names": ["curl"],
  "options": [
    {"names": ["-X"], "args": [{"name": "method"}]},
    {"names": ["-v"]}
  ],
  "args": [{"name": "URL", "templates": ["history"]}]
}"#;

#[test]
fn values_come_from_the_matching_slot_regardless_of_options_in_between() {
    let mut registry = registry_with(&[("curl", CURL)]);
    let mut store = HistoryStore::from_lines(vec![
        "curl https://old.example".into(),
        "curl -X POST https://api.example".into(),
        "curl -v -X GET https://other.example".into(),
        "wget https://not-curl.example".into(),
        "cd /tmp && curl https://after-and.example".into(),
    ]);
    let slot = ArgSlot {
        root: "curl".into(),
        path: Vec::new(),
        option: None,
        index: 0,
    };
    let values = offered_values(&mut store, &mut registry, "", &[copy_slot(&slot)]);
    assert_eq!(
        values,
        vec![
            "https://after-and.example",
            "https://other.example",
            "https://api.example",
            "https://old.example",
        ]
    );

    let method = ArgSlot {
        option: Some("-X".into()),
        ..slot
    };
    let methods = offered_values(&mut store, &mut registry, "", &[method]);
    assert_eq!(methods, vec!["GET", "POST"]);
}

#[test]
fn history_aliases_are_expanded_before_indexing() {
    let mut registry = registry_with(&[(
        "git",
        r#"{
          "names": ["git"],
          "subcommands": [{"names": ["checkout", "co"], "args": [{"name": "branch"}]}]
        }"#,
    )]);
    let mut store = HistoryStore::from_lines(vec!["g co feature".into(), "git checkout main".into()]);
    let slot = ArgSlot {
        root: "git".into(),
        path: vec!["checkout".into()],
        option: None,
        index: 0,
    };
    let values = offered_values(&mut store, &mut registry, "alias g='git'\n", &[slot]);
    assert_eq!(values, vec!["main", "feature"]);
}

#[test]
fn wrapped_commands_file_their_values_under_the_inner_spec() {
    let mut registry = registry_with(&[
        ("curl", CURL),
        (
            "sudo",
            r#"{
              "names": ["sudo"],
              "options": [{"names": ["-u"], "args": [{"name": "user"}]}],
              "args": [{"name": "command", "isCommand": true}]
            }"#,
        ),
    ]);
    let mut store = HistoryStore::from_lines(vec![
        "sudo curl https://as-root.example".into(),
        "sudo -u www curl https://as-www.example".into(),
        "curl https://plain.example".into(),
    ]);
    let url = ArgSlot {
        root: "curl".into(),
        path: Vec::new(),
        option: None,
        index: 0,
    };
    let values = offered_values(&mut store, &mut registry, "", &[url]);
    assert_eq!(
        values,
        vec![
            "https://plain.example",
            "https://as-www.example",
            "https://as-root.example"
        ]
    );

    // The command token itself is not a value of `sudo`'s argument.
    let sudo_command = ArgSlot {
        root: "sudo".into(),
        path: Vec::new(),
        option: None,
        index: 0,
    };
    let user = ArgSlot {
        option: Some("-u".into()),
        ..copy_slot(&sudo_command)
    };
    assert!(offered_values(&mut store, &mut registry, "", &[sudo_command]).is_empty());
    assert_eq!(offered_values(&mut store, &mut registry, "", &[user]), vec!["www"]);
}

#[test]
fn variadic_values_past_the_argument_list_have_no_slot() {
    let mut registry = registry_with(&[(
        "scp",
        r#"{
          "names": ["scp"],
          "args": [
            {"name": "source", "isVariadic": true, "templates": ["history"]},
            {"name": "target", "templates": ["history"]}
          ]
        }"#,
    )]);
    let mut store = HistoryStore::from_lines(vec!["scp a b host:".into(), "scp only host2:".into()]);
    let slot = |index| ArgSlot {
        root: "scp".into(),
        path: Vec::new(),
        option: None,
        index,
    };
    assert_eq!(
        offered_values(&mut store, &mut registry, "", &[slot(0)]),
        vec!["only", "a"]
    );
    assert_eq!(
        offered_values(&mut store, &mut registry, "", &[slot(1)]),
        vec!["host2:", "b"]
    );
    assert!(offered_values(&mut store, &mut registry, "", &[slot(2)]).is_empty());
}
