//! Hooks: their programs, their replies, and what is kept of them.
use std::sync::Arc;

use ec_engine::js_host::fig::{merge_generated_spec, spec_from_fig_json};
use ec_engine::js_host::hook::{
    self, cache_key, clean_output, command_from_input, command_from_reply, custom_program,
    decide_after_job, decide_after_start, default_hook_budget, exec_timeout_ms, flag_from_reply,
    generate_spec_program, hook_deadline_ms, hook_function, hook_path, is_over, post_process,
    program_for, query_term, quote_text, quote_texts, rows_from_reply, script_command,
    spec_from_reply, text_from_reply, AfterJob, Interpreter, Job, ShellContext, MAX_JOBS,
};
use ec_engine::js_host::keep::{
    cached_spec, cached_suggestions, key_for, owned_cache_policy, script_cache_fallback,
    CachePolicy, KeptResults, MAX_CACHE_ENTRIES,
};
use ec_engine::js_host::reply::{
    parse_execute_input, script_command_from_json, suggestion_from_json,
};
use ec_engine::json::Json;
use ec_engine::ir::{FilterStrategy, GeneratorSpec, LoadSpec};
use ec_engine::{ArgSpec, Spec, Suggestion, Template};
use rquickjs::{Context, Runtime};

fn interpreter() -> Interpreter {
    Interpreter::open().expect("interpreter")
}

fn text(value: &str) -> Json {
    Json::Text(value.to_owned())
}

fn object(members: Vec<(&str, Json)>) -> Json {
    Json::Object(members.into_iter().map(|(key, value)| (key.to_owned(), value)).collect())
}

#[test]
fn quickjs_can_eval_and_run_a_hook() {
    let runtime = Runtime::new().expect("runtime");
    let context = Context::full(&runtime).expect("context");
    context.with(|ctx| {
        let value: i32 = ctx.eval("1 + 2").expect("eval");
        assert_eq!(value, 3);
    });
    let source = "export default function(out) { return [{ name: 'ok-' + out }]; }\n";
    let rows = post_process(&interpreter(), source, "row", &["demo".into()], 5000).expect("hook");
    assert_eq!(
        rows.iter().map(|row| row.name.as_str()).collect::<Vec<_>>(),
        vec!["ok-row"]
    );
}

#[test]
fn post_process_can_call_console_error() {
    let source = "export default function(out) { try { JSON.parse('not-json'); } catch (err) { console.error(err); } return [{ name: out }]; }\n";
    let rows = post_process(&interpreter(), source, "kept", &["demo".into()], 5000).expect("hook");
    assert_eq!(
        rows.iter().map(|row| row.name.as_str()).collect::<Vec<_>>(),
        vec!["kept"]
    );
}

#[test]
fn hooks_get_their_arguments_unharmed() {
    let source = "(out, tokens) => [out, tokens.join('|')]";
    let odd = "a\"b\\c\n\r\t\u{0}\u{1b}\u{2028}\u{2029}é😀";
    let rows = post_process(&interpreter(), source, odd, &[odd.to_owned(), "x".into()], 5000)
        .expect("hook");
    assert_eq!(rows[0].name, odd);
    assert_eq!(rows[1].name, format!("{odd}|x"));
}

#[test]
fn asynchronous_hooks_are_awaited() {
    let source = "export default async function(out) { await null; return [await Promise.resolve(out)]; };";
    let rows = post_process(&interpreter(), source, "late", &[], 5000).expect("hook");
    assert_eq!(rows[0].name, "late");
    let never = "export default function() { return new Promise(() => {}); }";
    assert!(post_process(&interpreter(), never, "", &[], 5000).is_none());
    let thrown = "export default function() { throw new Error('boom'); }";
    assert!(post_process(&interpreter(), thrown, "", &[], 5000).is_none());
    assert!(post_process(&interpreter(), "not a function (", "", &[], 5000).is_none());
}

#[test]
fn an_infinite_js_loop_is_interrupted_at_the_hook_deadline() {
    let started = std::time::Instant::now();
    let source = "export default function() { for (;;) {} }\n";
    let rows = post_process(&interpreter(), source, "", &["demo".into()], 100);
    assert!(rows.is_none(), "the spinning hook must fail, not hang");
    assert!(
        started.elapsed() < std::time::Duration::from_secs(10),
        "interrupted after {:?}, expected roughly budget + margin",
        started.elapsed()
    );
}

#[test]
fn the_runtime_survives_an_interrupted_hook() {
    let runtime = interpreter();
    let spin = "export default function() { for (;;) {} }\n";
    assert!(post_process(&runtime, spin, "", &["spin".into()], 100).is_none());
    let alive = "export default function() { return [{ name: 'alive' }]; }\n";
    let rows = post_process(&runtime, alive, "", &["ok".into()], 5_000)
        .expect("the runtime must stay usable after an interrupt");
    assert_eq!(
        rows.iter().map(|row| row.name.as_str()).collect::<Vec<_>>(),
        vec!["alive"]
    );
}

#[test]
fn hooks_that_keep_scheduling_jobs_are_given_up_on() {
    let started = std::time::Instant::now();
    let runtime = interpreter();
    let endless = "export default function() { const again = () => Promise.resolve().then(again); again(); return new Promise(() => {}); }\n";
    assert!(post_process(&runtime, endless, "", &[], 60_000).is_none());
    let spins = "export default async function() { await null; for (;;) {} }\n";
    assert!(post_process(&interpreter(), spins, "", &[], 100).is_none());
    let chains = "export default function() { const seen = [0, 0, 0]; let tick = 0; const spin = i => Promise.resolve().then(() => { tick += 1; seen[i] = tick; for (let k = 0; k < 3; k += 1) { if (tick - seen[k] > 10) { spin(k); } } spin(i); for (let n = 0; n < 100000; n += 1) {} }); spin(0); spin(1); spin(2); return new Promise(() => {}); }\n";
    assert!(post_process(&interpreter(), chains, "", &[], 100).is_none());
    assert!(
        started.elapsed() < std::time::Duration::from_secs(15),
        "given up on after {:?}",
        started.elapsed()
    );
}

#[test]
fn failed_jobs_end_a_hook() {
    assert_eq!(MAX_JOBS, 10_000);
    assert_eq!(decide_after_job(Job::Ran, 1), AfterJob::Next);
    assert_eq!(decide_after_job(Job::Ran, MAX_JOBS - 1), AfterJob::Next);
    assert_eq!(decide_after_job(Job::Ran, MAX_JOBS), AfterJob::Read);
    assert_eq!(decide_after_job(Job::Idle, 3), AfterJob::Read);
    assert_eq!(decide_after_job(Job::Failed, 3), AfterJob::GiveUp);
    assert_eq!(decide_after_start(None), AfterJob::GiveUp);
    assert_eq!(decide_after_start(Some("settled")), AfterJob::Read);
    assert_eq!(decide_after_start(Some("pending")), AfterJob::Next);
}

#[test]
fn hooks_share_the_global_object_of_their_interpreter() {
    let runtime = interpreter();
    let leaves = "export default function(out) { globalThis.left = out; return []; }\n";
    assert!(post_process(&runtime, leaves, "kept", &[], 5_000).is_some());
    let finds = "export default function() { return [globalThis.left || 'nothing']; }\n";
    assert_eq!(post_process(&runtime, finds, "", &[], 5_000).expect("rows")[0].name, "kept");
    assert_eq!(post_process(&interpreter(), finds, "", &[], 5_000).expect("rows")[0].name, "nothing");
    let late = "export default function() { return new Promise(() => {}); }\n";
    assert!(post_process(&runtime, late, "", &[], 5_000).is_none());
    let broken = "export default function() { throw new Error('boom'); }\n";
    assert!(post_process(&runtime, broken, "", &[], 5_000).is_none());
}

#[test]
fn exec_calls_are_clamped_to_the_hook_deadline() {
    assert_eq!(hook_deadline_ms(100), 2_100);
    assert_eq!(hook_deadline_ms(u64::MAX), u64::MAX);
    assert_eq!(exec_timeout_ms(5_000, None), Some(5_000));
    assert_eq!(exec_timeout_ms(5_000, Some(2_100)), Some(2_100));
    assert_eq!(exec_timeout_ms(5_000, Some(6_000)), Some(5_000));
    assert_eq!(exec_timeout_ms(5_000, Some(0)), None);
    assert!(!is_over(2_100, 2_100));
    assert!(is_over(2_101, 2_100));
    assert_eq!(default_hook_budget(-1), 5_000);
    assert_eq!(default_hook_budget(9_000), 9_000);
}

#[test]
fn other_hooks_answer_with_one_value() {
    let changed = "(now, before) => now !== before";
    assert_eq!(hook::trigger(&interpreter(), changed, "a", "b", 5000), Some(true));
    assert_eq!(hook::trigger(&interpreter(), changed, "a", "a", 5000), Some(false));
    assert_eq!(hook::trigger(&interpreter(), "() => 'yes'", "a", "a", 5000), None);
    assert_eq!(query_term(&interpreter(), "term => term.slice(4)", "src/main", 5000).as_deref(), Some("main"));
    assert_eq!(query_term(&interpreter(), "() => 7", "src/main", 5000), None);
    let command = script_command(&interpreter(), "tokens => ['ls', tokens[0]]", &["dir".into()], 5000)
        .expect("command");
    assert_eq!(command.command, "ls");
    assert_eq!(command.args, vec!["dir"]);
    assert_eq!(script_command(&interpreter(), "() => []", &[], 5000), None);
}

#[test]
fn programs_hold_the_hook_and_its_arguments() {
    assert_eq!(hook_function("export default function() {};;\n"), "function() {}");
    assert_eq!(hook_function("  x => x ; "), "x => x");
    assert_eq!(quote_text("a\"\\\n"), "\"a\\\"\\\\\\u000a\"");
    assert_eq!(quote_texts(&["a".into(), "b".into()]), "[\"a\", \"b\"]");
    let program = program_for("x => x", &["\"1\"".into(), "[]".into()]);
    assert!(program.contains("globalThis.__hook = (x => x);"), "{program}");
    assert!(program.contains("(0, globalThis.__hook)(\"1\", []);"), "{program}");
}

#[test]
fn replies_are_read_as_json() {
    let rows = rows_from_reply(Some("[\"a\", {\"name\": \"b\"}, 1]"), true).expect("rows");
    assert_eq!(rows.len(), 2);
    assert!(rows.iter().all(|row| row.is_dangerous));
    assert!(rows_from_reply(Some("{}"), false).is_none());
    assert!(rows_from_reply(Some("not json"), false).is_none());
    assert!(rows_from_reply(None, false).is_none());
    assert_eq!(flag_from_reply(Some("true")), Some(true));
    assert_eq!(flag_from_reply(Some("1")), None);
    assert_eq!(text_from_reply(Some("\"x\"")).as_deref(), Some("x"));
    assert_eq!(text_from_reply(Some("null")), None);
    assert_eq!(command_from_reply(Some("\"ls -l\"")).expect("command").args, vec!["-c", "ls -l"]);
}

#[test]
fn clean_output_strips_cr_ansi_and_blank_lines() {
    assert_eq!(clean_output("\n\r\nhello\x1b[?25h\n\n"), "hello");
    assert_eq!(clean_output("a\r\nb"), "a\nb");
}

#[test]
fn cache_key_matches_js_tostring() {
    assert_eq!(cache_key(false, "/tmp", None, &["env".into()]), ",env");
    assert_eq!(cache_key(true, "/tmp", Some("env"), &["ignored".into()]), "/tmp,env");
}

#[test]
fn hook_files_have_safe_names() {
    assert_eq!(hook_path("/specs/hooks", "git#custom#0"), "/specs/hooks/git_custom_0.js");
    assert_eq!(hook_path("hooks", "../a b"), "hooks/.._a_b.js");
}

#[test]
fn shell_context_is_empty_outside_a_completion_attempt() {
    let shell = ShellContext::default();
    assert!(shell.current_process.is_empty());
    assert!(shell.environment_variables.is_empty());
}

#[test]
fn rows_of_hooks_are_read() {
    let row = suggestion_from_json(
        &object(vec![
            ("name", Json::List(vec![Json::Int(1), text("first"), text("second")])),
            ("description", text("about")),
            ("type", text("folder")),
            ("displayName", text("shown")),
            ("icon", text("i")),
            ("hidden", Json::Bool(true)),
            ("shouldAddSpace", Json::Bool(true)),
            ("priority", Json::Int(200)),
        ]),
        false,
    )
    .expect("row");
    assert_eq!(row.name, "first");
    assert_eq!(row.description, "about");
    assert_eq!(row.kind, "folder");
    assert_eq!(row.insert_value.as_deref(), Some("first"));
    assert_eq!(row.display_name.as_deref(), Some("shown"));
    assert_eq!(row.icon.as_deref(), Some("i"));
    assert!(row.hidden && row.should_add_space && !row.is_dangerous);
    assert_eq!(row.priority, 100);
    let row = suggestion_from_json(
        &object(vec![("name", text("n")), ("insertValue", text("v")), ("isDangerous", Json::Bool(true))]),
        false,
    )
    .expect("row");
    assert_eq!(row.insert_value.as_deref(), Some("v"));
    assert!(row.is_dangerous);
    assert_eq!(row.kind, "arg");
    assert!(suggestion_from_json(&text(""), false).is_none());
    assert!(suggestion_from_json(&object(vec![("name", text(""))]), false).is_none());
    assert!(suggestion_from_json(&object(vec![]), false).is_none());
    assert!(suggestion_from_json(&Json::Null, false).is_none());
}

#[test]
fn commands_of_hooks_are_read() {
    let command = script_command_from_json(&object(vec![
        ("command", text("docker")),
        ("args", Json::List(vec![text("ps"), Json::Int(1)])),
        ("timeout", Json::Int(700)),
    ]))
    .expect("command");
    assert_eq!(command.command, "docker");
    assert_eq!(command.args, vec!["ps"]);
    assert_eq!(command.timeout_ms, Some(700));
    assert!(script_command_from_json(&text("  ")).is_none());
    assert!(script_command_from_json(&Json::List(vec![text("")])).is_none());
    assert!(script_command_from_json(&object(vec![("command", text(""))])).is_none());
    assert!(script_command_from_json(&Json::Bool(true)).is_none());
}

#[test]
fn execute_command_maps_command_args_cwd_env_timeout() {
    let request = object(vec![
        ("command", text("printf")),
        ("args", Json::List(vec![text("ok")])),
        ("cwd", text("/there")),
        ("env", object(vec![("EC_HOOK", text("1")), ("N", Json::Int(2))])),
    ]);
    let parsed = parse_execute_input(&request, "/here", 5_000, Some(1)).expect("request");
    assert_eq!(parsed.command, "printf");
    assert_eq!(parsed.args, vec!["ok"]);
    assert_eq!(parsed.cwd, "/there");
    assert_eq!(parsed.env, vec![("EC_HOOK".to_string(), "1".to_string())]);
    assert_eq!(parsed.timeout_ms, 5_000);
    let longer = parse_execute_input(&request, "/here", 5_000, Some(9_000)).expect("request");
    assert_eq!(longer.timeout_ms, 9_000);
    let line = parse_execute_input(&text("ls"), "/here", 100, None).expect("request");
    assert_eq!(line.command, "sh");
    assert_eq!(line.args, vec!["-c", "ls"]);
    assert_eq!(line.cwd, "/here");
    assert_eq!(line.timeout_ms, 5_000);
    let mixed = object(vec![
        ("command", text("x")),
        ("args", Json::List(vec![text("a"), Json::Int(1)])),
        ("cwd", text("")),
    ]);
    let mixed = parse_execute_input(&mixed, "/here", 100, None).expect("request");
    assert!(mixed.args.is_empty());
    assert_eq!(mixed.cwd, "/here");
    assert_eq!(mixed.timeout_ms, 100);
    assert!(parse_execute_input(&Json::Null, "/here", 100, None).is_none());
    assert!(parse_execute_input(&object(vec![]), "/here", 100, None).is_none());
}

#[test]
fn computed_specs_are_read() {
    let value = object(vec![
        ("name", Json::List(vec![text("php"), text("p")])),
        ("description", text("about")),
        ("filterStrategy", text("fuzzy")),
        ("requiresSubcommand", Json::Bool(true)),
        ("loadSpec", text("other")),
        ("generateSpecCacheKey", text("key")),
        (
            "subcommands",
            Json::List(vec![
                object(vec![("name", text("artisan"))]),
                Json::Int(3),
                object(vec![("description", text("nameless"))]),
            ]),
        ),
        (
            "options",
            Json::List(vec![object(vec![
                ("names", Json::List(vec![text("-v")])),
                ("args", object(vec![("name", text("level")), ("isOptional", Json::Bool(true))])),
            ])]),
        ),
        (
            "args",
            Json::List(vec![object(vec![
                ("template", Json::List(vec![text("filepaths"), text("help"), text("folders")])),
                ("suggestions", Json::List(vec![text("x"), object(vec![("name", text("y"))])])),
            ])]),
        ),
        (
            "parserDirectives",
            object(vec![
                ("flagsArePosixNoncompliant", Json::Bool(true)),
                ("optionArgSeparators", Json::List(vec![text(":")])),
            ]),
        ),
    ]);
    let spec = spec_from_fig_json(&value).expect("spec");
    assert_eq!(spec.names, vec!["php", "p"]);
    assert_eq!(spec.description, "about");
    assert_eq!(spec.filter_strategy, Some(FilterStrategy::Fuzzy));
    assert_eq!(spec.requires_subcommand, Some(true));
    assert_eq!(spec.load_spec, Some(LoadSpec::Path("other".into())));
    assert_eq!(spec.generate_spec_cache_key.as_deref(), Some("key"));
    assert_eq!(spec.subcommands.len(), 1);
    assert!(spec.find_subcommand("artisan").is_some());
    assert_eq!(spec.options[0].names, vec!["-v"]);
    assert!(spec.options[0].args[0].is_optional);
    assert_eq!(spec.args[0].templates, vec![Template::Filepaths, Template::Folders]);
    assert_eq!(spec.args[0].suggestions.len(), 2);
    let directives = spec.parser_directives.expect("directives");
    assert_eq!(directives.flags_are_posix_noncompliant, Some(true));
    assert_eq!(directives.option_arg_separators, Some(vec![":".to_string()]));
    assert!(spec_from_fig_json(&object(vec![])).is_none());
    assert!(spec_from_fig_json(&text("php")).is_none());
}

#[test]
fn merge_keeps_wrapper_names_and_existing_args() {
    let wrapper = Spec {
        names: vec!["php".into()],
        args: vec![Arc::new(ArgSpec {
            name: "file".into(),
            ..ArgSpec::default()
        })],
        ..Spec::default()
    };
    let generated = Spec {
        names: vec!["generated".into()],
        subcommands: vec![Arc::new(Spec {
            names: vec!["artisan".into()],
            ..Spec::default()
        })],
        args: vec![Arc::new(ArgSpec {
            name: "other".into(),
            ..ArgSpec::default()
        })],
        ..Spec::default()
    };
    let merged = merge_generated_spec(&wrapper, generated);
    assert_eq!(merged.names, vec!["php"]);
    assert_eq!(merged.args[0].name, "file");
    assert!(merged.find_subcommand("artisan").is_some());
}

#[test]
fn merging_replaces_what_shares_a_name() {
    fn named(name: &[&str], description: &str) -> Arc<Spec> {
        Arc::new(Spec {
            names: name.iter().map(|name| name.to_string()).collect(),
            description: description.into(),
            ..Spec::default()
        })
    }
    let wrapper = Spec {
        description: "wrapper".into(),
        subcommands: vec![named(&["a", "x"], "old"), named(&["b"], "old")],
        ..Spec::default()
    };
    let generated = Spec {
        names: vec!["g".into()],
        subcommands: vec![named(&["x"], "new"), named(&["c"], "new")],
        ..Spec::default()
    };
    let merged = merge_generated_spec(&wrapper, generated);
    assert_eq!(merged.names, vec!["g"]);
    assert_eq!(merged.description, "wrapper");
    let seen: Vec<(&str, &str)> = merged
        .subcommands
        .iter()
        .map(|spec| (spec.names[0].as_str(), spec.description.as_str()))
        .collect();
    assert_eq!(seen, vec![("x", "new"), ("b", "old"), ("c", "new")]);
}

#[test]
fn results_are_kept_as_the_generator_asks() {
    let plain = GeneratorSpec::default();
    assert!(owned_cache_policy(&plain, false).is_none());
    let auto = owned_cache_policy(&plain, true).expect("policy");
    assert_eq!(auto.lookup, CachePolicy { ttl_ms: Some(1_000), swr: true });
    let asked = GeneratorSpec {
        cache_by_directory: Some(true),
        cache_ttl_ms: Some(-5),
        ..GeneratorSpec::default()
    };
    let policy = owned_cache_policy(&asked, false).expect("policy");
    assert!(policy.by_directory);
    assert_eq!(policy.lookup.ttl_ms, None);
    assert_eq!(key_for("script", &policy, "/tmp", &["a".into(), "b".into()]), "script:/tmp,a b");
    assert_eq!(script_cache_fallback("ls", &["-l".into()], "/tmp"), vec!["ls", "-l", "/tmp"]);
}

#[test]
fn kept_results_expire_and_are_bounded() {
    let mut kept: KeptResults<u32> = KeptResults::new();
    let strict = CachePolicy { ttl_ms: Some(10), swr: false };
    let stale = CachePolicy { ttl_ms: Some(10), swr: true };
    kept.put("a", 1, 100);
    assert_eq!(kept.get("a", strict, 110), Some(&1));
    assert_eq!(kept.get("a", strict, 111), None);
    assert_eq!(kept.get("a", stale, 1_000), Some(&1));
    assert_eq!(kept.get("a", strict, 0), Some(&1));
    kept.put("a", 2, 200);
    assert_eq!(kept.get("a", stale, 0), Some(&2));
    for i in 0..MAX_CACHE_ENTRIES {
        kept.put(&format!("k{i}"), 0, 0);
    }
    assert_eq!(kept.get("a", stale, 0), None);
    assert_eq!(kept.get(&format!("k{}", MAX_CACHE_ENTRIES - 1), stale, 0), Some(&0));
}

#[test]
fn fresh_results_are_computed_once() {
    let mut kept: KeptResults<Vec<Suggestion>> = KeptResults::new();
    let asked = GeneratorSpec { cache_key: Some("k".into()), ..GeneratorSpec::default() };
    let policy = owned_cache_policy(&asked, false);
    assert!(cached_suggestions(&mut kept, policy.as_ref(), "k", 0, None).is_none());
    let fresh = vec![Suggestion::new("row", "", "arg")];
    let first = cached_suggestions(&mut kept, policy.as_ref(), "k", 0, Some(fresh)).expect("rows");
    assert_eq!(first[0].name, "row");
    let second = cached_suggestions(&mut kept, policy.as_ref(), "k", 9, None).expect("rows");
    assert_eq!(second[0].name, "row");
    assert!(cached_suggestions(&mut kept, None, "k", 9, None).is_none());
    let mut specs: KeptResults<Arc<Spec>> = KeptResults::new();
    assert!(cached_spec(&mut specs, "php", 0, None).is_none());
    let spec = Arc::new(Spec { names: vec!["php".into()], ..Spec::default() });
    assert!(cached_spec(&mut specs, "php", 0, Some(spec)).is_some());
    assert_eq!(cached_spec(&mut specs, "php", 5, None).expect("spec").names, vec!["php"]);
}

#[test]
fn custom_hooks_are_handed_the_shell_and_the_means_to_run_commands() {
    let shell = ShellContext {
        current_process: "zsh".to_owned(),
        environment_variables: Arc::new(vec![("A".to_owned(), "1".to_owned())]),
    };
    let words = vec!["git".to_owned()];
    let program = custom_program("export default f;", &words, "/w", &shell, "st", true);
    assert!(program.contains(
        "[\"git\"], globalThis.__execute, ({ currentWorkingDirectory: \"/w\", \
         currentProcess: \"zsh\", sshPrefix: \"\", searchTerm: \"st\", isDangerous: true, \
         environmentVariables: Object.fromEntries([[\"A\", \"1\"]]) })"
    ));
    let program = generate_spec_program("f", &words);
    assert!(program.contains("[\"git\"], globalThis.__execute"));
    let spec = spec_from_reply(Some("{\"name\": \"git\"}")).expect("spec");
    assert_eq!(spec.names, vec!["git".to_owned()]);
    assert!(spec_from_reply(Some("3")).is_none());
    assert!(spec_from_reply(None).is_none());
}

#[test]
fn hooks_ask_for_commands_as_json() {
    let command = command_from_input("{\"command\": \"ls\", \"args\": [\"-l\"]}", "/w", 7, Some(9))
        .expect("command");
    assert_eq!(command.command, "ls");
    assert_eq!(command.args, vec!["-l".to_owned()]);
    assert_eq!(command.cwd, "/w");
    assert_eq!(command.timeout_ms, 9);
    let command = command_from_input("\"ls -l\"", "/w", 7, None).expect("command");
    assert_eq!(command.command, "sh");
    assert_eq!(command.timeout_ms, 5000);
    assert!(command_from_input("3", "/w", 7, None).is_none());
    assert!(command_from_input("{", "/w", 7, None).is_none());
}

#[test]
fn custom_hooks_see_the_shell_process_and_environment() {
    let source = "export default function(tokens, exec, ctx) {\n  return [{ name: `${ctx.currentProcess}:${ctx.environmentVariables.EC_TEST}` }];\n}\n";
    let shell = ShellContext {
        current_process: "/bin/zsh".to_owned(),
        environment_variables: Arc::new(vec![("EC_TEST".to_owned(), "on".to_owned())]),
    };
    let program = custom_program(source, &["demo".to_owned()], "/", &shell, "", false);
    let reply = interpreter().run(&program, 5_000).expect("reply");
    let rows = rows_from_reply(Some(&reply), false).expect("hook");
    assert_eq!(
        rows.iter().map(|row| row.name.as_str()).collect::<Vec<_>>(),
        vec!["/bin/zsh:on"]
    );
}
