//! The parts that completion is made of, on their own.
use std::cmp::Ordering;
use std::sync::Arc;

use ec_engine::engine::{complete_history, Engine};
use ec_engine::filegen::expand::{
    expand_environment_variables, expand_tilde, is_environment_name_character, join_base,
    join_home_prefix, parse_braced_variable, Places,
};
use ec_engine::filegen::filter::{
    compiled_matches, extension_matches, path_name_passes_filter, regex_is_found, PathFilter,
};
use ec_engine::filegen::list::{compare_file_names, complete_path, entry_label, DirEntry};
use ec_engine::generate::ask::{
    ask_for_builtin, builtin_suggestions, git_arguments, git_suggestions, rows_or_none, Ask, Reply,
};
use ec_engine::generate::run::{
    generator_arg_id, query_term_hooks, trigger_hooks, CachedGenerator, GeneratorSession,
};
use ec_engine::generate::seeds::{
    dedup_suggestions, filter_generated, hidden_generated_row_is_visible, mark_dangerous,
    refilter_generated, stamp_query_term,
};
use ec_engine::generate::shape::{
    aliases_to_suggestions, all_lines, all_split, changed_files_to_suggestions,
    described_lines_to_suggestions, files_above, filter_cached_lines, filter_lines,
    history_template_suggestions, lines_to_suggestions, newest, npm_deps, npm_scripts,
    parse_changed_file, split_output, GIT_DEPTH, PACKAGE_DEPTH,
};
use ec_engine::generate::source::{generate_from_generator, GenerateInput};
use ec_engine::generate::trigger::{
    limit_as_signed, trigger_hook, trigger_match_index, trigger_string, utf16_len, DEFAULT_SCRIPT_TIMEOUT_MS,
};
use ec_engine::history::{
    annotate_command, build_index, expand_alias_tokens_with, is_command_separator,
    local_spec_name, names_spec, parse_alias_map, primary_name, same_slot, ArgSlot,
};
use ec_engine::index::{read_index, IrIndex};
use ec_engine::ir::{
    FilterStrategy, GeneratorSpec, GeneratorTrigger, LoadSpec, ParserDirectives, Repeatable,
};
use ec_engine::js_host::reply::suggestions_from_json;
use ec_engine::json::{collect_texts, Json};
use ec_engine::lookup::candidates::{filter_query, sort_by_name};
use ec_engine::lookup::complete::{first_token_result, CompleteAnswers, GeneratedRows, Missing};
use ec_engine::lookup::options::{
    attached_search_term, find_option_in, inherit_subcommand_directives, merge_parser_directives,
    merge_persistent_options, options_are_equal, options_in_token, parse_short_option_chain,
    positional_arg, resolve_option_token, root_directives, short_option_name,
};
use ec_engine::lookup::rows::{
    arg_suggests_commands, can_be_passed, command_arg_suggestions, option_is_excluded,
    option_priority, option_repetition_count, option_repetition_limit, option_separator,
};
use ec_engine::lookup::shell::{
    buffer_before_cursor, current_token_raw, innermost_command_start, is_assignment_token,
    is_fd_redirection_token, operator_len, skip_leading_assignments,
};
use ec_engine::lookup::walk::{
    dynamic_spec_name, generate_spec_key, next_spec_after_arg, walk_spec, Need, SpecAnswers,
};
use ec_engine::query::{
    beginning_indexes, fold_case, greedy_indexes, match_score, next_beginning_indexes, starts_with_ignore_case,
    strict_indexes, utf16_units,
};
use ec_engine::rank::frecency::{history_priority_base, Frecency};
use ec_engine::rank::history::{history_prefix, merge_history_with_prefix};
use ec_engine::rank::order::{
    better_match, completion_prefix, effective_priority_score, effective_priority_tenths,
    history_priority_tenths, matching_term,
};
use ec_engine::rank::source::{
    history_shells, load_commands, load_commands_for, load_database_commands,
    non_empty_history_command, same_source, HistoryAnswers, HistoryNeed, HistoryRow, HistoryShell,
    HistorySourceConfig, ShellCommand,
};
use ec_engine::references::{
    collect_references, is_safe_path, load_spec_file, load_spec_file_within,
    resolve_reference_path, resolve_spec_references, Library,
};
use ec_engine::registry::LoadStep;
use ec_engine::runtime::{
    hook_to_run, make_result, normalize_priority, query_term_with_hook, HookTerms,
};
use ec_engine::settings::{dev_specs_folder, Settings};
use ec_engine::sorted::{sort_pairs, sort_texts};
use ec_engine::text::{
    comes_before, first_word_text, join, lines, replace, rfind, same_ignoring_case, split, trim,
    trim_end,
};
use ec_engine::tree::{copy_arg, copy_json, copy_spec};
use ec_engine::worker::attempt_log_context;
use ec_engine::{
    AcceptanceIndex, ArgSpec, Builtin, CompleteRequest, OptionSpec, Registry, Spec, Suggestion,
};

fn owned(list: &[&str]) -> Vec<String> {
    list.iter().map(|text| text.to_string()).collect()
}

fn chars(text: &str) -> Vec<char> {
    text.chars().collect()
}

fn names(rows: &[Suggestion]) -> Vec<&str> {
    rows.iter().map(|row| row.name.as_str()).collect()
}

fn row(name: &str) -> Suggestion {
    Suggestion::new(name, "", "arg")
}

fn option(spellings: &[&str]) -> OptionSpec {
    OptionSpec { names: owned(spellings), ..OptionSpec::default() }
}

fn valued(spellings: &[&str]) -> OptionSpec {
    OptionSpec { args: vec![Arc::new(ArgSpec::default())], ..option(spellings) }
}

fn command(name: &str) -> Spec {
    Spec { names: owned(&[name]), ..Spec::default() }
}

fn no_answers() -> SpecAnswers {
    SpecAnswers { lookup: true, hooks: false, specs: Vec::new(), generated: Vec::new() }
}

fn source(shell: HistoryShell) -> HistorySourceConfig {
    HistorySourceConfig { custom_command: None, all_shells: false, current_shell: shell }
}

// ---------------------------------------------------------------------------
// Texts
// ---------------------------------------------------------------------------
#[test]
fn texts_are_split_and_joined() {
    assert_eq!(lines("a\r\nb\n\nc\n"), owned(&["a", "b", "", "c"]));
    assert_eq!(lines(""), Vec::<String>::new());
    assert_eq!(split("a,b,", ","), owned(&["a", "b", ""]));
    assert_eq!(split("", ","), owned(&[""]));
    assert_eq!(join(&owned(&["a", "b", "c"]), "--"), "a--b--c");
    assert_eq!(join(&[], "--"), "");
    assert_eq!(replace("aaa", "aa", "b"), "ba");
    assert_eq!(rfind(&chars("abcabc"), &chars("bc")), Some(4));
    assert_eq!(rfind(&chars("abc"), &chars("x")), None);
}

#[test]
fn white_space_is_trimmed() {
    assert_eq!(trim("\u{2003} git \t\n"), "git");
    assert_eq!(trim("   "), "");
    assert_eq!(trim_end(" git  "), " git");
    assert_eq!(first_word_text("  git status "), "git");
    assert_eq!(first_word_text("  "), "");
}

#[test]
fn dictionary_order_is_by_characters() {
    assert!(comes_before("a", "b"));
    assert!(comes_before("a", "ab"));
    assert!(comes_before("Z", "a"));
    assert!(!comes_before("a", "a"));
    assert!(same_ignoring_case("GiT", "gIt"));
    assert!(!same_ignoring_case("É", "é"));
}

#[test]
fn sorted_sets_hold_each_text_once() {
    assert_eq!(sort_texts(&owned(&["b", "a", "b", "c", "a"])), owned(&["a", "b", "c"]));
    let pairs = vec![
        ("b".to_owned(), "1".to_owned()),
        ("a".to_owned(), "2".to_owned()),
        ("b".to_owned(), "0".to_owned()),
    ];
    let sorted: Vec<String> = sort_pairs(&pairs).into_iter().map(|(key, _)| key).collect();
    assert_eq!(sorted, owned(&["a", "b", "b"]));
}

// ---------------------------------------------------------------------------
// JSON
// ---------------------------------------------------------------------------
#[test]
fn json_members_are_read_by_kind() {
    let value = Json::Object(vec![
        ("name".to_owned(), Json::Text("git".to_owned())),
        ("hidden".to_owned(), Json::Bool(true)),
        ("priority".to_owned(), Json::Int(7)),
    ]);
    assert!(value.is_object());
    assert_eq!(value.get_text("name"), Some("git".to_owned()));
    assert_eq!(value.get_text("hidden"), None);
    assert_eq!(value.get_text_or_empty("missing"), "");
    assert_eq!(value.get_bool("hidden"), Some(true));
    assert_eq!(value.get_int("priority"), Some(7));
    assert_eq!(value.get_int("name"), None);
    assert!(Json::Null.get("name").is_none());
    assert_eq!(copy_json(&value), value);
    let mixed = vec![Json::Text("a".to_owned()), Json::Int(1), Json::Text("b".to_owned())];
    assert_eq!(collect_texts(&mixed), owned(&["a", "b"]));
}

#[test]
fn json_text_is_read_with_its_numbers() {
    let package = br#"{"scripts": {"test": "cargo test", "build": "cargo build"}}"#;
    let rows = npm_scripts(Some(package), "", false);
    assert_eq!(names(&rows), vec!["build", "test"]);
    assert!(npm_scripts(Some(b"{"), "", false).is_empty());
    assert!(npm_scripts(None, "", false).is_empty());
    let package = br#"{"dependencies": {"a": "1"}, "devDependencies": {"b": "2"}}"#;
    let mut found: Vec<String> = npm_deps(Some(package), "", false)
        .into_iter()
        .map(|row| row.name)
        .collect();
    found.sort();
    assert_eq!(found, owned(&["a", "b"]));
}

// ---------------------------------------------------------------------------
// Indexes and references
// ---------------------------------------------------------------------------
fn index_of(files: &[(&str, &str)]) -> IrIndex {
    IrIndex {
        files: Some(
            files.iter().map(|(name, path)| (name.to_string(), path.to_string())).collect(),
        ),
    }
}

#[test]
fn indexes_without_a_map_leave_files_public() {
    assert_eq!(read_index(&IrIndex::default()), None);
    assert_eq!(read_index(&index_of(&[])), Some(Vec::new()));
    assert_eq!(read_index(&index_of(&[("", "git.json")])), Some(Vec::new()));
}

#[test]
fn mapped_files_stay_inside_the_directory() {
    let index = index_of(&[
        ("git", "git.json"),
        ("out", "../out.json"),
        ("abs", "/etc/abs.json"),
        ("deep", "a/../../b.json"),
    ]);
    assert_eq!(read_index(&index), Some(vec![("git".to_owned(), "git.json".to_owned())]));
    assert!(is_safe_path("aws/s3.json"));
    assert!(!is_safe_path("../aws.json"));
    assert!(!is_safe_path("/aws.json"));
}

fn library() -> Library {
    let inner = Spec { description: "inner".to_owned(), ..command("inner") };
    let looped = Spec {
        load_spec: Some(LoadSpec::Path("looped".to_owned())),
        ..command("looped")
    };
    Library {
        root: "/specs".to_owned(),
        index: vec![
            ("inner".to_owned(), "/specs/inner.json".to_owned()),
            ("looped".to_owned(), "/specs/looped.json".to_owned()),
        ],
        specs: vec![
            ("/specs/inner.json".to_owned(), Arc::new(inner)),
            ("/specs/looped.json".to_owned(), Arc::new(looped)),
        ],
    }
}

#[test]
fn references_are_followed_under_the_name_of_the_reference() {
    let spec = Spec { load_spec: Some(LoadSpec::Path("inner".to_owned())), ..command("outer") };
    let resolved = resolve_spec_references(&spec, &library(), &[], 10).expect("resolved");
    assert_eq!(resolved.names, owned(&["outer"]));
    assert_eq!(resolved.description, "inner");
    assert_eq!(collect_references(&spec), owned(&["inner"]));
}

#[test]
fn cycles_and_missing_references_do_no_harm() {
    let looped = load_spec_file("/specs/looped.json", &library()).expect("loaded");
    assert_eq!(looped.names, owned(&["looped"]));
    let spec = Spec { load_spec: Some(LoadSpec::Path("gone".to_owned())), ..command("outer") };
    let resolved = resolve_spec_references(&spec, &library(), &[], 10).expect("resolved");
    assert_eq!(resolved.names, owned(&["outer"]));
    assert!(load_spec_file("/specs/gone.json", &library()).is_none());
}

#[test]
fn a_depth_that_is_enough_gives_the_same_as_more() {
    let known = library();
    let shallow = load_spec_file_within("/specs/inner.json", &known, 3).expect("loaded");
    let deep = load_spec_file("/specs/inner.json", &known).expect("loaded");
    assert_eq!(shallow, deep);
    assert!(load_spec_file_within("/specs/inner.json", &known, 0).is_none());
}

#[test]
fn references_are_followed_as_deep_as_they_go() {
    let count = 400;
    let file = |i: usize| format!("/specs/s{i}.json");
    let specs = (0..count)
        .map(|i| {
            let spec = Spec {
                load_spec: match i + 1 < count {
                    true => Some(LoadSpec::Path(format!("s{}", i + 1))),
                    false => None,
                },
                description: format!("number {i}"),
                ..command("chain")
            };
            (file(i), Arc::new(spec))
        })
        .collect();
    let known = Library { root: "/specs".to_owned(), index: Vec::new(), specs };
    let loaded = load_spec_file("/specs/s0.json", &known).expect("loaded");
    assert_eq!(loaded.description, "number 399");
}

#[test]
fn inline_specs_that_lead_back_nest_without_end() {
    let back = Spec { load_spec: Some(LoadSpec::Path("round".to_owned())), ..Spec::default() };
    let round = Spec {
        args: vec![Arc::new(ArgSpec {
            load_spec: Some(LoadSpec::Inline(Arc::new(back))),
            ..ArgSpec::default()
        })],
        ..command("round")
    };
    let start = Spec {
        subcommands: vec![Arc::new(Spec {
            load_spec: Some(LoadSpec::Path("round".to_owned())),
            ..command("sub")
        })],
        ..command("start")
    };
    let known = Library {
        root: "/specs".to_owned(),
        index: Vec::new(),
        specs: vec![
            ("/specs/round.json".to_owned(), Arc::new(round)),
            ("/specs/start.json".to_owned(), Arc::new(start)),
        ],
    };
    assert!(load_spec_file("/specs/round.json", &known).is_some());
    assert!(load_spec_file_within("/specs/start.json", &known, 40).is_none());
}

#[test]
fn files_being_followed_are_known_however_they_are_written() {
    let looped = Spec {
        load_spec: Some(LoadSpec::Path("a/./b".to_owned())),
        ..command("b")
    };
    let known = Library {
        root: "/specs".to_owned(),
        index: Vec::new(),
        specs: vec![
            ("/specs/a/b.json".to_owned(), Arc::new(looped)),
            ("/specs/a/./b.json".to_owned(), Arc::new(command("other"))),
        ],
    };
    let loaded = load_spec_file("/specs/a/b.json", &known).expect("loaded");
    assert_eq!(loaded, command("b"));
}

#[test]
fn reference_paths_come_from_the_index_first() {
    let known = library();
    assert_eq!(
        resolve_reference_path(&known.root, &known.index, "inner").as_deref(),
        Some("/specs/inner.json"),
    );
    assert!(resolve_reference_path(&known.root, &known.index, "../etc/passwd").is_none());
}

// ---------------------------------------------------------------------------
// The registry
// ---------------------------------------------------------------------------
#[test]
fn registries_load_specs_when_they_are_asked_for() {
    let mut registry = Registry::with_root("/specs".to_owned(), true);
    registry.remember_file("git", "/specs/git.json");
    registry.rebuild_names();
    assert!(registry.has_command_file_map());
    assert_eq!(registry.file_path("git"), Some("/specs/git.json"));
    assert_eq!(registry.file_path("gone"), None);
    assert!(matches!(registry.ensure_loaded("gone"), LoadStep::Unknown));
    assert!(matches!(registry.ensure_loaded("git"), LoadStep::Read(path) if path == "/specs/git.json"));
    registry.finish_load("git", "/specs/git.json", command("git"));
    assert!(matches!(registry.ensure_loaded("git"), LoadStep::Cached));
    assert_eq!(registry.get("git").map(|spec| spec.names.clone()), Some(owned(&["git"])));
    assert_eq!(registry.loaded_spec_count(), 1);
}

#[test]
fn exact_names_are_offered_only_where_asked_for() {
    let mut registry = Registry::new();
    registry.insert(command("git"));
    registry.insert(command("gitk"));
    let without: Vec<String> = registry
        .command_names_matching_with("git", false)
        .into_iter()
        .map(|(name, _)| name)
        .collect();
    let with: Vec<String> = registry
        .command_names_matching_including_exact_with("git", false)
        .into_iter()
        .map(|(name, _)| name)
        .collect();
    assert_eq!(without, owned(&["gitk"]));
    assert_eq!(with, owned(&["git", "gitk"]));
}

// ---------------------------------------------------------------------------
// Shell words
// ---------------------------------------------------------------------------
#[test]
fn shell_words_are_told_apart() {
    assert!(is_assignment_token("FOO=bar"));
    assert!(!is_assignment_token("=bar"));
    assert!(is_assignment_token("FOO+=bar"));
    assert!(is_assignment_token("LIST[1]=bar"));
    assert!(!is_assignment_token("FOO-BAR=1"));
    assert!(is_fd_redirection_token("2>&1"));
    assert!(!is_fd_redirection_token("file"));
    assert_eq!(skip_leading_assignments("FOO=1 BAR='a b' git st"), "git st");
    assert_eq!(skip_leading_assignments("git st"), "git st");
    assert_eq!(operator_len(&chars("&&x"), 0), 2);
    assert_eq!(operator_len(&chars("|x"), 0), 1);
    assert_eq!(operator_len(&chars("x"), 0), 0);
    assert_eq!(current_token_raw("git 'a b"), "'a b");
    assert_eq!(current_token_raw("git "), "");
    assert_eq!(innermost_command_start(&chars("a && b")), 5);
    assert_eq!(innermost_command_start(&chars("echo $(git")), 7);
}

#[test]
fn the_caret_cuts_the_buffer() {
    assert_eq!(buffer_before_cursor("git status", Some(3)), "git");
    assert_eq!(buffer_before_cursor("git", Some(99)), "git");
    assert_eq!(buffer_before_cursor("git", None), "git");
}

// ---------------------------------------------------------------------------
// Options
// ---------------------------------------------------------------------------
#[test]
fn options_are_found_by_spelling_and_separator() {
    let list = vec![Arc::new(option(&["-a", "--all"])), Arc::new(valued(&["-m", "--message"]))];
    let plain = ParserDirectives::default();
    assert_eq!(find_option_in(&list, &chars("--all"), &plain), Some(0));
    assert_eq!(find_option_in(&list, &chars("--message=x"), &plain), Some(1));
    assert_eq!(find_option_in(&list, &chars("--none"), &plain), None);
    assert_eq!(short_option_name(&list[1]), Some("-m".to_owned()));
    assert_eq!(short_option_name(&option(&["--long"])), None);
    let passed = options_in_token(&list, &chars("-am"), &plain);
    assert_eq!(passed.len(), 2);
    let chain = parse_short_option_chain(&list, &chars("-am"), &plain);
    assert!(chain.is_some());
    assert!(parse_short_option_chain(&list, &chars("-ax"), &plain).is_none());
    let noncompliant = ParserDirectives {
        flags_are_posix_noncompliant: Some(true),
        ..ParserDirectives::default()
    };
    assert!(parse_short_option_chain(&list, &chars("-am"), &noncompliant).is_none());
}

#[test]
fn attached_values_keep_their_raw_spelling() {
    let list = vec![Arc::new(valued(&["--message"]))];
    let word = chars("--message=x");
    let found = resolve_option_token(&list, &word, &ParserDirectives::default()).expect("option");
    assert_eq!(attached_search_term("--message='x", &word, found, "x"), "'x");
}

#[test]
fn directives_are_merged_and_inherited() {
    let parent = ParserDirectives {
        options_must_precede_arguments: Some(true),
        flags_are_posix_noncompliant: Some(true),
        option_arg_separators: Some(owned(&[":"])),
    };
    let plain = command("plain");
    assert_eq!(root_directives(&plain).options_must_precede_arguments, None);
    assert_eq!(merge_parser_directives(&parent, &plain).option_arg_separators, Some(owned(&[":"])));
    let own = Spec {
        parser_directives: Some(ParserDirectives {
            flags_are_posix_noncompliant: Some(false),
            ..ParserDirectives::default()
        }),
        ..command("own")
    };
    let inherited = inherit_subcommand_directives(&parent, &own);
    assert_eq!(inherited.flags_are_posix_noncompliant, Some(false));
}

#[test]
fn persistent_options_reach_subcommands_once() {
    let shared = Arc::new(option(&["--verbose"]));
    let spec = Spec {
        persistent_options: vec![Arc::new(option(&["--verbose"])), Arc::new(option(&["--quiet"]))],
        ..command("sub")
    };
    let merged = merge_persistent_options(&[shared], &spec);
    let spellings: Vec<&str> = merged.iter().map(|option| option.names[0].as_str()).collect();
    assert_eq!(spellings.iter().filter(|name| **name == "--quiet").count(), 1);
    assert!(spellings.contains(&"--verbose"));
    assert!(options_are_equal(&option(&["-a", "--all"]), &option(&["-a", "--all"])));
    assert!(!options_are_equal(&option(&["-a"]), &option(&["-b"])));
}

#[test]
fn variadic_arguments_take_every_further_word() {
    let list = vec![
        Arc::new(ArgSpec { name: "path".to_owned(), ..ArgSpec::default() }),
        Arc::new(ArgSpec { is_variadic: true, ..ArgSpec::default() }),
    ];
    assert_eq!(positional_arg(&[Arc::new(ArgSpec::default())], 0), None);
    assert_eq!(positional_arg(&list, 0), Some(0));
    assert_eq!(positional_arg(&list, 1), Some(1));
    assert_eq!(positional_arg(&list, 7), Some(1));
    assert_eq!(positional_arg(&list[..1], 1), None);
}

#[test]
fn options_are_offered_as_often_as_they_may_repeat() {
    let once = option(&["-a"]);
    let passed = vec![Arc::new(option(&["-a"]))];
    assert_eq!(option_repetition_count(&once, &passed), 1);
    assert_eq!(option_repetition_limit(&once), Some(1));
    assert!(!can_be_passed(&once, &passed));
    let twice = OptionSpec { is_repeatable: Some(Repeatable::Count(2)), ..option(&["-a"]) };
    assert_eq!(option_repetition_limit(&twice), Some(2));
    assert!(can_be_passed(&twice, &passed));
    let many = OptionSpec { is_repeatable: Some(Repeatable::Flag(true)), ..option(&["-a"]) };
    assert_eq!(option_repetition_limit(&many), None);
    let excluding = OptionSpec { exclusive_on: owned(&["-b"]), ..option(&["-a"]) };
    assert!(option_is_excluded(&option(&["-b"]), &[Arc::new(excluding)]));
    assert!(!option_is_excluded(&option(&["-b"]), &passed));
    let needing = OptionSpec { depends_on: owned(&["-b"]), ..option(&["-a"]) };
    assert_eq!(option_priority(&option(&["-b"]), &[Arc::new(needing)]), Some(75));
    assert_eq!(option_priority(&once, &[]), None);
}

#[test]
fn separators_are_added_where_they_are_required() {
    let plain = ParserDirectives::default();
    assert_eq!(option_separator(&valued(&["-m"]), &plain), None);
    let equals = OptionSpec { requires_equals: true, ..valued(&["-m"]) };
    assert_eq!(option_separator(&equals, &plain), Some("=".to_owned()));
    let colon = OptionSpec {
        requires_separator: Some(Json::Text(":".to_owned())),
        ..valued(&["-m"])
    };
    assert_eq!(option_separator(&colon, &plain), Some(":".to_owned()));
}

// ---------------------------------------------------------------------------
// Walks
// ---------------------------------------------------------------------------
#[test]
fn walks_enter_subcommands_and_ask_for_other_commands() {
    let sub = command("status");
    let root = Arc::new(Spec { subcommands: vec![Arc::new(sub)], ..command("git") });
    let words = owned(&["git", "status"]);
    let state = walk_spec(&no_answers(), root, &words, 2).ok().expect("walked");
    assert_eq!(state.current.names, owned(&["status"]));
    let taking = Arc::new(Spec {
        args: vec![Arc::new(ArgSpec { is_command: true, ..ArgSpec::default() })],
        ..command("sudo")
    });
    let words = owned(&["sudo", "git", "x"]);
    match walk_spec(&no_answers(), taking, &words, 3) {
        Err(Need::Spec(name)) => assert_eq!(name, "git"),
        _ => panic!("the walk needs the command"),
    }
}

#[test]
fn arguments_load_specs_by_their_word() {
    let module = ArgSpec { is_module: Some("python/".to_owned()), ..ArgSpec::default() };
    assert_eq!(dynamic_spec_name(&module, "http"), Some("python/http".to_owned()));
    let nested = ArgSpec { is_command: true, ..ArgSpec::default() };
    assert_eq!(dynamic_spec_name(&nested, "git"), Some("git".to_owned()));
    assert_eq!(dynamic_spec_name(&ArgSpec::default(), "git"), None);
    assert!(matches!(next_spec_after_arg(&no_answers(), &ArgSpec::default(), "x"), Ok(None)));
    let keyed = Spec { generate_spec_cache_key: Some("k".to_owned()), ..command("git") };
    assert_eq!(generate_spec_key(&owned(&["git", "a"]), "/w", &keyed), "git:k");
    let hooked = Spec { js_generate_spec: Some("git#0".to_owned()), ..command("git") };
    assert_eq!(
        generate_spec_key(&owned(&["git", "a"]), "/w", &hooked),
        "git\u{1f}git#0\u{1f}/w\u{1f}git\u{1f}a",
    );
}

#[test]
fn command_arguments_offer_commands() {
    let mut registry = Registry::new();
    registry.insert(command("git"));
    let arg = ArgSpec { is_command: true, ..ArgSpec::default() };
    assert!(arg_suggests_commands(&arg));
    assert_eq!(names(&command_arg_suggestions(&registry, &arg, "gi", false)), vec!["git"]);
    assert!(!arg_suggests_commands(&ArgSpec::default()));
}

// ---------------------------------------------------------------------------
// Matching
// ---------------------------------------------------------------------------
#[test]
fn fuzzy_places_are_found_in_order() {
    let codes = |text: &str| -> Vec<u32> { text.chars().map(|c| c as u32).collect() };
    assert_eq!(greedy_indexes(&codes("checkout"), &codes("co")), Some(vec![0, 5]));
    assert_eq!(greedy_indexes(&codes("abc"), &codes("ca")), None);
    assert_eq!(beginning_indexes(&utf16_units("git-statusPage")), vec![0, 3, 4, 10]);
    assert_eq!(next_beginning_indexes(4, &[0, 2]), vec![2, 2, 4, 4]);
    assert_eq!(
        strict_indexes(&codes("ab-cd"), &codes("ac"), &[2, 2, 3, 5, 5], 0),
        Some(vec![0, 3]),
    );
    assert_eq!(fold_case("GitHub"), "github");
    assert_eq!(fold_case("ÉA"), "éa");
    assert!(starts_with_ignore_case("GitHub", "git"));
    assert!(!starts_with_ignore_case("hub", "git"));
}

#[test]
fn better_matches_come_first() {
    let exact = match_score("git", "git", true).expect("match");
    let prefix = match_score("gitk", "git", true).expect("match");
    assert!(better_match(exact, prefix));
    assert!(!better_match(prefix, exact));
    assert!(exact.bucket() < prefix.bucket());
}

#[test]
fn rows_are_kept_by_their_term() {
    let kept = filter_query(vec![row("status"), row("stash"), row("log")], "st", false);
    assert_eq!(names(&kept), vec!["status", "stash"]);
    assert_eq!(sort_by_name(&owned(&["b", "a", "c"])), vec![1, 0, 2]);
    assert!(FilterStrategy::Fuzzy.effective_fuzzy(false));
    assert!(!FilterStrategy::Prefix.effective_fuzzy(true));
    assert!(FilterStrategy::Default.effective_fuzzy(true));
}

// ---------------------------------------------------------------------------
// Order
// ---------------------------------------------------------------------------
#[test]
fn history_lifts_priorities() {
    assert_eq!(history_priority_tenths(0), 0);
    assert_eq!(history_priority_tenths(1), 500);
    assert_eq!(history_priority_tenths(2), 752);
    assert_eq!(history_priority_tenths(10), 760);
    assert_eq!(history_priority_tenths(99), 760);
    assert_eq!(effective_priority_tenths(50, 0), 500);
    assert_eq!(effective_priority_tenths(50, 2), 752);
    assert_eq!(effective_priority_tenths(-5, 0), 0);
    assert_eq!(effective_priority_tenths(200, 0), 1000);
    assert!(effective_priority_score(500, Some(2)) > effective_priority_score(500, Some(1)));
    assert!(effective_priority_score(500, Some(1)) > effective_priority_score(500, None));
    assert_eq!(history_priority_base(1), 50);
    assert_eq!(history_priority_base(2), 75);
    assert_eq!(normalize_priority(0), 50);
    assert_eq!(normalize_priority(-1), 0);
    assert_eq!(normalize_priority(101), 100);
    assert_eq!(normalize_priority(76), 76);
}

#[test]
fn rows_are_ordered_by_the_term_that_matched() {
    let result = make_result(Vec::new(), false, "'ma".to_owned(), "ma".to_owned());
    assert_eq!(matching_term(&result), "ma");
    assert_eq!(completion_prefix(&owned(&["git", "ch"]), "ch"), "git");
    assert_eq!(completion_prefix(&owned(&["git"]), ""), "git");
}

#[test]
fn history_rows_follow_the_other_rows() {
    let frecency = Frecency::from_commands(vec![("git status".to_owned(), 1)]);
    let mut result = make_result(vec![row("stash")], false, "st".to_owned(), "st".to_owned());
    let words = owned(&["git", "st"]);
    merge_history_with_prefix(&mut result, &words, Some("git ".to_owned()), &frecency, false);
    assert_eq!(names(&result.suggestions), vec!["stash", "status"]);
    assert_eq!(result.suggestions[1].kind, "history");
    assert_eq!(history_prefix(&words, "st"), Some("git ".to_owned()));
    assert_eq!(frecency.next_word_count("git", "status"), 1);
    assert_eq!(frecency.next_word_count("", "git status"), 0);
    assert_eq!(frecency.next_word_count("status", "git "), 0);
}

// ---------------------------------------------------------------------------
// Paths
// ---------------------------------------------------------------------------
fn environment() -> Vec<(String, String)> {
    vec![("PROJECT".to_owned(), "/srv/project".to_owned())]
}

#[test]
fn variables_and_homes_are_expanded() {
    let env = environment();
    assert!(is_environment_name_character('_'));
    assert!(!is_environment_name_character('-'));
    assert_eq!(parse_braced_variable("NAME"), Some(("NAME".to_owned(), None)));
    assert_eq!(
        parse_braced_variable("NAME:-x"),
        Some(("NAME".to_owned(), Some("x".to_owned()))),
    );
    assert_eq!(parse_braced_variable("1-"), None);
    assert_eq!(expand_environment_variables("$PROJECT/src", &env, &[]), "/srv/project/src");
    assert_eq!(expand_environment_variables("${PROJECT}", &env, &[]), "/srv/project");
    let places = Places {
        variables: Vec::new(),
        home: Some("/home/u".to_owned()),
        user_home: None,
    };
    assert_eq!(expand_tilde("~/src", &env, &places), "/home/u/src");
    assert_eq!(expand_tilde("src", &env, &places), "src");
    let entries = vec![
        DirEntry { name: "src".to_owned(), is_dir: true },
        DirEntry { name: "main.rs".to_owned(), is_dir: false },
    ];
    let folders = complete_path("", "/work", true, false, &places, Some(&entries));
    assert!(folders.iter().all(|row| row.name != "main.rs"));
    assert_eq!(join_base("/a", "b"), "/a/b");
    assert_eq!(join_base("/a/", "b"), "/a/b");
    assert_eq!(join_home_prefix("/home/u", "x"), "/home/u/x");
    assert_eq!(join_home_prefix("/home/u", ""), "/home/u/");
}

#[test]
fn file_names_are_compared_without_case_first() {
    assert_eq!(compare_file_names("alpha", "Beta"), Ordering::Less);
    assert_eq!(compare_file_names("Alpha", "alpha"), Ordering::Greater);
    assert_eq!(compare_file_names("a", "a"), Ordering::Equal);
    assert_eq!(compare_file_names("ab", "a"), Ordering::Greater);
    assert_eq!(compare_file_names("é", "É"), Ordering::Less);
}

#[test]
fn patterns_and_extensions_select_files() {
    let filter = PathFilter { extensions: &owned(&["rs"]), ..PathFilter::default() };
    assert!(extension_matches("main.rs", filter.extensions));
    assert!(!extension_matches("main.py", filter.extensions));
    assert!(path_name_passes_filter("main.rs", false, &filter, None));
    assert!(!path_name_passes_filter("main.py", false, &filter, None));
    let filter = PathFilter { matches: Some("^a+$"), ..PathFilter::default() };
    let regex = compiled_matches(&filter);
    assert!(regex.is_some());
    assert!(regex_is_found(regex.as_ref(), "aaa"));
    assert!(!regex_is_found(regex.as_ref(), "aab"));
    assert!(path_name_passes_filter("aaa", false, &filter, regex.as_ref()));
    assert!(!path_name_passes_filter("aab", false, &filter, regex.as_ref()));
    assert_eq!(entry_label(&DirEntry { name: "src".to_owned(), is_dir: true }), "src/");
}

// ---------------------------------------------------------------------------
// Generators
// ---------------------------------------------------------------------------
#[test]
fn outputs_become_rows() {
    assert_eq!(names(&filter_lines("main\ndev\n\n", "m", false)), vec!["main"]);
    assert_eq!(names(&all_lines("main\n dev \n\n")), vec!["main", "dev"]);
    assert_eq!(names(&all_split("a, b,,c", ",")), vec!["a", "b", "c"]);
    assert_eq!(split_output("a,b", ","), owned(&["a", "b"]));
    assert_eq!(names(&filter_cached_lines(&owned(&["main", "dev"]), "d", false)), vec!["dev"]);
    assert_eq!(names(&history_template_suggestions(&owned(&["x", "y"]), "", false)), vec!["x", "y"]);
    assert_eq!(lines_to_suggestions("main\n", "", false, "arg")[0].kind, "arg");
    let described = described_lines_to_suggestions("abc123\tfirst change\n", "", false, "arg");
    assert_eq!(described[0].name, "abc123");
    assert_eq!(described[0].description, "first change");
}

#[test]
fn git_outputs_become_rows() {
    assert_eq!(parse_changed_file(" M src/main.rs"), Some("src/main.rs".to_owned()));
    assert_eq!(parse_changed_file("R  old.rs -> new.rs"), Some("new.rs".to_owned()));
    assert_eq!(names(&changed_files_to_suggestions(" M a.rs\n?? b.rs\n", "", false)), vec!["a.rs", "b.rs"]);
    let aliases = aliases_to_suggestions("alias.co checkout\n", "", false);
    assert_eq!(names(&aliases), vec!["co"]);
    assert_eq!(aliases[0].description, "Alias for 'checkout'");
    assert!(!git_arguments(Builtin::GitRemotes).is_empty());
    assert!(matches!(ask_for_builtin(Builtin::GitRemotes, 5), Ask::Git { .. }));
    assert_eq!(names(&git_suggestions(Builtin::GitRemotes, "origin\n", "", false)), vec!["origin"]);
    let reply = Reply::Output(Some("origin\nfork\n".to_owned()));
    assert_eq!(names(&builtin_suggestions(Builtin::GitRemotes, &reply, "f", false)), vec!["fork"]);
    assert!(rows_or_none(&Reply::Output(None)).is_empty());
}

#[test]
fn repositories_and_packages_are_searched_upwards() {
    assert_eq!(
        files_above("/a/b", ".git", GIT_DEPTH),
        owned(&["/a/b/.git", "/a/.git", "/.git"]),
    );
    assert_eq!(files_above("", "package.json", PACKAGE_DEPTH), owned(&["./package.json", "package.json"]));
    assert_eq!(files_above("/a/b", "x", 2), owned(&["/a/b/x", "/a/x"]));
    assert_eq!(newest(&[None, Some(3), Some(7), Some(5)]), Some(7));
    assert_eq!(newest(&[None]), None);
}

#[test]
fn generated_rows_are_filtered_marked_and_distinct() {
    let hidden = Suggestion { hidden: true, ..row("secret") };
    assert!(!hidden_generated_row_is_visible(&hidden, "sec"));
    assert!(hidden_generated_row_is_visible(&hidden, "secret"));
    let list = vec![row("main"), row("dev"), row("main")];
    assert_eq!(names(&filter_generated(&list, "ma", false)), vec!["main", "main"]);
    assert_eq!(names(&refilter_generated(&list, "de", false)), vec!["dev"]);
    let mut list = list;
    dedup_suggestions(&mut list);
    assert_eq!(names(&list), vec!["main", "dev"]);
    mark_dangerous(&mut list, true);
    assert!(list.iter().all(|row| row.is_dangerous));
    stamp_query_term(&mut list, "m", "x/m", true);
    assert_eq!(list[0].query_term.as_deref(), Some("m"));
}

#[test]
fn triggers_are_found_by_their_text() {
    assert_eq!(utf16_len("a\u{1f600}"), 3);
    assert_eq!(limit_as_signed(7), 7);
    assert_eq!(limit_as_signed(u64::MAX), DEFAULT_SCRIPT_TIMEOUT_MS);
    let slash = GeneratorTrigger {
        string: Some(Json::Text("/".to_owned())),
        ..GeneratorTrigger::default()
    };
    assert_eq!(trigger_string(&slash), "/");
    assert_eq!(trigger_match_index(&slash, "/"), 0);
    let several = GeneratorTrigger {
        string: Some(Json::List(vec![Json::Text(":".to_owned()), Json::Text("/".to_owned())])),
        ..GeneratorTrigger::default()
    };
    assert_eq!(trigger_match_index(&several, "/"), 1);
    assert_eq!(trigger_match_index(&slash, "abc"), -1);
}

#[test]
fn hook_values_become_rows() {
    let value = Json::List(vec![
        Json::Text("plain".to_owned()),
        Json::Object(vec![("name".to_owned(), Json::Text("rich".to_owned()))]),
        Json::Int(3),
    ]);
    assert_eq!(names(&suggestions_from_json(&value, false).expect("rows")), vec!["plain", "rich"]);
    assert!(suggestions_from_json(&Json::Null, false).is_none());
    let hooks = HookTerms { answers: vec![("h.js".to_owned(), Some("hooked".to_owned()))] };
    assert_eq!(query_term_with_hook("a/b", None, Some("h.js"), Some(&hooks)), "hooked");
    assert_eq!(query_term_with_hook("a/b", Some("/"), Some("h.js"), Some(&hooks)), "b");
    assert_eq!(query_term_with_hook("a/b", None, Some("other.js"), Some(&hooks)), "a/b");
    assert_eq!(query_term_with_hook("a/b", Some("/"), None, None), "b");
}

#[test]
fn trigger_hooks_are_asked_only_where_they_decide() {
    let rule = |on: &str| GeneratorSpec {
        trigger: Some(GeneratorTrigger {
            on: on.to_owned(),
            js_trigger: Some("t.js".to_owned()),
            ..GeneratorTrigger::default()
        }),
        ..GeneratorSpec::default()
    };
    let generators = vec![
        Arc::new(rule("function")),
        Arc::new(rule("string")),
        Arc::new(rule("function")),
        Arc::new(GeneratorSpec::default()),
    ];
    let words = owned(&["git", "ch"]);
    let arg = ArgSpec::default();
    let ran = || CachedGenerator { ran: true, ..CachedGenerator::default() };
    let session = GeneratorSession {
        arg_id: generator_arg_id(&words, &arg, "/w", "ch"),
        search_term: "c".to_owned(),
        entries: vec![ran(), ran(), CachedGenerator::default(), ran()],
    };
    let (previous, hooks) = trigger_hooks(&words, &arg, "/w", "ch", &generators, &session);
    assert_eq!(previous, "c");
    assert_eq!(hooks, vec![Some("t.js".to_owned()), None, None, None]);
    let other = GeneratorSession { arg_id: "other".to_owned(), ..session };
    let (previous, hooks) = trigger_hooks(&words, &arg, "/w", "ch", &generators, &other);
    assert_eq!(previous, "");
    assert_eq!(hooks, vec![None, None, None, None]);
    assert_eq!(trigger_hook(&None, false), None);
}

#[test]
fn custom_hooks_are_handed_the_query_of_their_generator() {
    let generator = GeneratorSpec { js_custom: Some("c.js".to_owned()), ..GeneratorSpec::default() };
    let places = Places::default();
    let words = owned(&["git", "a/b"]);
    let input = GenerateInput {
        tokens: &words,
        search_term: "a/b",
        cwd: "/w",
        fuzzy: false,
        history_values: &[],
        configured_timeout_ms: 5000,
        host_cwd: Some("/w"),
        hooks: None,
        environment: &[],
        places: &places,
        triggers: &[],
        replies: &[],
    };
    let arg = ArgSpec::default();
    match generate_from_generator(&input, &arg, &generator, "b", 0) {
        Err(Ask::Custom { hook, search_term, timeout_ms }) => {
            assert_eq!(hook, "c.js");
            assert_eq!(search_term, "b");
            assert_eq!(timeout_ms, 5000);
        },
        _ => panic!("the hook is asked for"),
    }
}

#[test]
fn only_hooks_without_a_separator_are_asked() {
    let mut arg = ArgSpec { js_get_query_term: Some("arg.js".to_owned()), ..ArgSpec::default() };
    let own = GeneratorSpec {
        js_get_query_term: Some("own.js".to_owned()),
        ..GeneratorSpec::default()
    };
    let split = GeneratorSpec {
        get_query_term: Some("/".to_owned()),
        js_get_query_term: Some("split.js".to_owned()),
        ..GeneratorSpec::default()
    };
    let generators = vec![Arc::new(own), Arc::new(split)];
    assert_eq!(query_term_hooks(&arg, &generators), owned(&["arg.js", "own.js"]));
    arg.meta.get_query_term = Some("/".to_owned());
    assert!(query_term_hooks(&arg, &generators).is_empty());
    assert_eq!(hook_to_run(None, Some("")), None);
    assert_eq!(hook_to_run(Some("/"), Some("h.js")), None);
    assert_eq!(hook_to_run(None, Some("h.js")), Some("h.js"));
}

// ---------------------------------------------------------------------------
// History
// ---------------------------------------------------------------------------
#[test]
fn aliases_are_written_out_once() {
    let aliases = parse_alias_map("alias g='git'\nll='ls -l'\n");
    let mut words = owned(&["g", "status"]);
    expand_alias_tokens_with(&mut words, &aliases);
    assert_eq!(words, owned(&["git", "status"]));
    let mut words = owned(&["ll"]);
    expand_alias_tokens_with(&mut words, &aliases);
    assert_eq!(words, owned(&["ls", "-l"]));
    let mut words = owned(&["cargo"]);
    expand_alias_tokens_with(&mut words, &aliases);
    assert_eq!(words, owned(&["cargo"]));
}

#[test]
fn commands_are_named_by_the_end_of_their_path() {
    assert_eq!(local_spec_name("/usr/bin/git"), "git");
    assert!(names_spec("./git", "git"));
    assert!(!names_spec("gitk", "git"));
    assert!(is_command_separator("&&"));
    assert!(!is_command_separator("git"));
    assert_eq!(primary_name(&owned(&["co", "checkout"])), "co");
}

#[test]
fn history_values_are_filed_by_slot() {
    let root = Arc::new(Spec {
        args: vec![Arc::new(ArgSpec { name: "branch".to_owned(), ..ArgSpec::default() })],
        ..command("checkout")
    });
    let trace = annotate_command(&no_answers(), root.clone(), &owned(&["checkout", "main"]), 2)
        .ok()
        .expect("walked");
    let slot = ArgSlot { root: "checkout".to_owned(), path: Vec::new(), option: None, index: 0 };
    assert_eq!(trace.values.len(), 1);
    assert!(same_slot(&trace.values[0].0, &slot));
    assert_eq!(trace.values[0].1, "main");
    let answers = SpecAnswers {
        specs: vec![("checkout".to_owned(), Some(root))],
        ..no_answers()
    };
    let lines = owned(&["checkout main", "ls", "checkout dev"]);
    let index = build_index(&lines, &answers, "checkout", &[]).ok().expect("indexed");
    let values: Vec<&str> = index.iter().map(|(_, value)| value.as_str()).collect();
    assert!(values.contains(&"main") && values.contains(&"dev"));
    assert_eq!(values.len(), 2);
}

#[test]
fn history_sources_name_the_shells_to_ask() {
    assert_eq!(history_shells(&source(HistoryShell::Fish)), vec![ShellCommand::Fish]);
    let all = HistorySourceConfig { all_shells: true, ..source(HistoryShell::Bash) };
    assert_eq!(history_shells(&all), vec![ShellCommand::Bash, ShellCommand::Zsh]);
    assert_eq!(history_shells(&source(HistoryShell::Unknown)), Vec::<ShellCommand>::new());
    assert_eq!(ShellCommand::Zsh.program(), ("zsh".to_owned(), "fc -R; fc -ln 1".to_owned()));
    assert!(same_source(&source(HistoryShell::Zsh), &source(HistoryShell::Zsh)));
    assert!(!same_source(&source(HistoryShell::Zsh), &source(HistoryShell::Bash)));
    assert_eq!(non_empty_history_command("  ls "), Some("  ls ".to_owned()));
    assert_eq!(non_empty_history_command("  "), None);
}

fn database_row(shell: &str, command: &str, time: Option<u64>) -> HistoryRow {
    HistoryRow {
        shell: Some(shell.to_owned()),
        command: Some(command.to_owned()),
        start_time: time,
    }
}

#[test]
fn shells_are_asked_before_the_database() {
    let zsh = source(HistoryShell::Zsh);
    let mut answers = HistoryAnswers::default();
    assert_eq!(load_commands_for(&zsh, &answers), Err(HistoryNeed::Shell(ShellCommand::Zsh)));
    answers.shells.push(Some("ls\n\ngit status\n".to_owned()));
    assert_eq!(
        load_commands_for(&zsh, &answers),
        Ok(vec![("ls".to_owned(), 0), ("git status".to_owned(), 0)]),
    );
    answers.shells[0] = None;
    assert_eq!(load_commands_for(&zsh, &answers), Err(HistoryNeed::Database));
    answers.database = Some(vec![
        database_row("/bin/zsh", "newest", Some(9)),
        database_row("/bin/bash", "other", Some(8)),
        database_row("zsh", "oldest", None),
    ]);
    assert_eq!(
        load_commands_for(&zsh, &answers),
        Ok(vec![("oldest".to_owned(), 0), ("newest".to_owned(), 9)]),
    );
}

#[test]
fn custom_history_commands_come_first() {
    let custom = HistorySourceConfig {
        custom_command: Some("mine".to_owned()),
        ..source(HistoryShell::Zsh)
    };
    let mut answers = HistoryAnswers::default();
    assert_eq!(load_commands_for(&custom, &answers), Err(HistoryNeed::Custom("mine".to_owned())));
    answers.custom = Some(Some("ls\n".to_owned()));
    assert_eq!(load_commands_for(&custom, &answers), Ok(vec![("ls".to_owned(), 0)]));
    answers.custom = Some(Some("  \n".to_owned()));
    assert_eq!(load_commands_for(&custom, &answers), Err(HistoryNeed::Database));
    answers.database = Some(vec![database_row("fish", "kept", Some(1))]);
    assert_eq!(load_commands_for(&custom, &answers), Ok(vec![("kept".to_owned(), 1)]));
    let blank = vec![database_row("zsh", "  ", None)];
    assert!(load_database_commands(&source(HistoryShell::Zsh), &blank).is_empty());
}

#[test]
fn unknown_shells_read_the_whole_database() {
    let rows = || {
        vec![
            database_row("fish", "newest", Some(9)),
            HistoryRow { shell: None, command: Some("  ".to_owned()), start_time: Some(8) },
            HistoryRow { shell: None, command: None, start_time: Some(7) },
            HistoryRow { shell: None, command: Some("oldest".to_owned()), start_time: None },
        ]
    };
    let whole = vec![("oldest".to_owned(), 0), ("newest".to_owned(), 9)];
    assert_eq!(load_commands(&rows()), whole);
    for all_shells in [false, true] {
        let unknown =
            HistorySourceConfig { all_shells, ..source(HistoryShell::Unknown) };
        assert!(history_shells(&unknown).is_empty());
        let mut answers = HistoryAnswers {
            shells: vec![Some("ls\n".to_owned()), Some("pwd\n".to_owned())],
            ..HistoryAnswers::default()
        };
        assert_eq!(load_commands_for(&unknown, &answers), Err(HistoryNeed::Database));
        answers.database = Some(rows());
        assert_eq!(load_commands_for(&unknown, &answers), Ok(whole.clone()));
    }
}

// ---------------------------------------------------------------------------
// The engine
// ---------------------------------------------------------------------------
fn git_engine() -> Engine {
    let mut registry = Registry::new();
    registry.insert(command("git"));
    Engine::from_registry(registry, AcceptanceIndex::default())
}

#[test]
fn history_is_loaded_once_for_a_source() {
    let mut engine = git_engine();
    let zsh = source(HistoryShell::Zsh);
    assert!(engine.needs_history(&zsh, false));
    assert!(!engine.needs_history(&zsh, true));
    engine.load_history(source(HistoryShell::Zsh), vec![("git status".to_owned(), 1)]);
    assert!(!engine.needs_history(&zsh, false));
    assert!(engine.needs_history(&source(HistoryShell::Bash), false));
}

fn answers_for_git() -> CompleteAnswers {
    CompleteAnswers {
        specs: SpecAnswers {
            specs: vec![("git".to_owned(), Some(Arc::new(command("git"))))],
            ..no_answers()
        },
        generated: None,
        fallback: None,
    }
}

#[test]
fn disabled_history_shows_and_counts_nothing() {
    let mut engine = git_engine();
    engine.load_history(source(HistoryShell::Zsh), vec![("git status".to_owned(), 1)]);
    let request = CompleteRequest {
        buffer: "git st".to_owned(),
        history_only: true,
        ..CompleteRequest::default()
    };
    let shown = engine
        .complete(&request, &Settings::default(), &answers_for_git())
        .ok()
        .expect("rows");
    assert_eq!(names(&shown.suggestions), vec!["status"]);
    let off = Settings { disable_history: true, ..Settings::default() };
    let hidden = engine.complete(&request, &off, &answers_for_git()).ok().expect("rows");
    assert!(hidden.suggestions.is_empty());
    let frecency = Frecency::from_commands(vec![("git stash".to_owned(), 1)]);
    let direct = complete_history(&request, false, &answers_for_git().specs, &frecency)
        .ok()
        .expect("rows");
    assert_eq!(names(&direct.suggestions), vec!["stash"]);
}

#[test]
fn engines_keep_what_was_accepted() {
    let mut engine = git_engine();
    assert!(engine.record_acceptance_at("git", "status", 5));
    assert!(!engine.record_acceptance_at("", "status", 6));
    assert_eq!(engine.acceptance().timestamp("git", "status"), Some(5));
    engine.clear_caches(Some(Registry::new()));
    assert!(engine.registry().is_empty());
    assert_eq!(engine.acceptance().timestamp("git", "status"), Some(5));
}

#[test]
fn specs_are_answered_from_memory_or_from_their_files() {
    let mut registry = Registry::with_root("/specs".to_owned(), true);
    registry.remember_file("git", "/specs/git.json");
    registry.remember_file("gone", "/specs/gone.json");
    registry.rebuild_names();
    let mut engine = Engine::from_registry(registry, AcceptanceIndex::default());
    let mut answers = no_answers();
    assert!(matches!(engine.answer_spec("other", &mut answers), LoadStep::Unknown));
    assert!(matches!(answers.answer("other"), Some(None)));
    assert!(matches!(
        engine.answer_spec("git", &mut answers),
        LoadStep::Read(path) if path == "/specs/git.json"
    ));
    assert!(answers.answer("git").is_none());
    engine.answer_read("git", "/specs/git.json", Some(command("git")), &mut answers);
    let found = answers.answer("git").flatten().expect("spec");
    assert_eq!(found.names, owned(&["git"]));
    engine.answer_read("gone", "/specs/gone.json", None, &mut answers);
    assert!(matches!(answers.answer("gone"), Some(None)));
    let mut again = no_answers();
    assert!(matches!(engine.answer_spec("git", &mut again), LoadStep::Cached));
    assert!(matches!(again.answer("git"), Some(Some(_))));
}

#[test]
fn requests_say_which_spec_they_need() {
    let engine = git_engine();
    let request = CompleteRequest { buffer: "git ".to_owned(), ..CompleteRequest::default() };
    let nothing = CompleteAnswers { specs: no_answers(), generated: None, fallback: None };
    match engine.complete(&request, &Settings::default(), &nothing) {
        Err(Missing::Spec(Need::Spec(name))) => assert_eq!(name, "git"),
        _ => panic!("the spec of the command is needed"),
    }
    let request = CompleteRequest {
        buffer: "gi".to_owned(),
        suggest_first_token: true,
        ..CompleteRequest::default()
    };
    let result = first_token_result(engine.registry(), &request, "gi".to_owned(), "gi".to_owned());
    assert_eq!(names(&result.suggestions), vec!["git"]);
}

#[test]
fn attached_values_are_replaced_as_they_were_typed() {
    let mut registry = Registry::new();
    registry.insert(command("git"));
    let engine = Engine::from_registry(registry, AcceptanceIndex::default());
    let spec = Spec { options: vec![Arc::new(valued(&["-m", "--message"]))], ..command("git") };
    let answers = CompleteAnswers {
        specs: SpecAnswers {
            specs: vec![("git".to_owned(), Some(Arc::new(spec)))],
            ..no_answers()
        },
        generated: Some(GeneratedRows { rows: Vec::new(), pending: false, debounce_ms: None }),
        fallback: None,
    };
    for (buffer, term) in [
        ("git --message='a b", "'a b"),
        ("git -m", "-m"),
        ("git -m 'a", "'a"),
        ("git --message ", ""),
    ] {
        let request = CompleteRequest { buffer: buffer.to_owned(), ..CompleteRequest::default() };
        let result = engine.complete(&request, &Settings::default(), &answers).ok().expect("rows");
        assert_eq!(result.search_term, term);
        assert!(buffer.ends_with(&result.search_term));
    }
}

#[test]
fn developer_folders_need_a_developer_mode() {
    let folder = || Some("/dev/specs".to_owned());
    assert_eq!(dev_specs_folder(true, false, folder()), folder());
    assert_eq!(dev_specs_folder(false, true, folder()), folder());
    assert_eq!(dev_specs_folder(false, false, folder()), None);
    assert_eq!(dev_specs_folder(true, true, Some(String::new())), None);
    assert_eq!(dev_specs_folder(true, true, None), None);
}

#[test]
fn failed_attempts_are_told_apart_in_the_log() {
    assert_eq!(
        attempt_log_context("  git \"secret\"", "/tmp/a\tb"),
        "root_command=\"git\" cwd=\"/tmp/a\\tb\"",
    );
    assert_eq!(attempt_log_context("", ""), "root_command=\"\" cwd=\"\"");
}

#[test]
fn copies_hold_the_same() {
    let spec = Spec {
        subcommands: vec![Arc::new(command("status"))],
        options: vec![Arc::new(valued(&["-m"]))],
        ..command("git")
    };
    let copy = copy_spec(&spec);
    assert_eq!(copy.names, spec.names);
    assert_eq!(copy.subcommands[0].names, owned(&["status"]));
    assert_eq!(copy.options[0].args.len(), 1);
    let arg = ArgSpec { name: "path".to_owned(), is_optional: true, ..ArgSpec::default() };
    let copy = copy_arg(&arg);
    assert_eq!(copy.name, "path");
    assert!(copy.is_optional);
}
