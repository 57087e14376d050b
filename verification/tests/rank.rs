//! Ranking, history rows and acceptances.
use std::collections::HashMap;

use ec_engine::query::matches_query;
use ec_engine::rank::frecency::Frecency;
use ec_engine::rank::history::{history_prefix_from_buffer, merge_history};
use ec_engine::rank::order::{apply, apply_with_acceptance};
use ec_engine::rank::source::{
    history_commands_from_output, history_source_config, includes_database_shell,
    normalize_history_shell, HistoryShell,
};
use ec_engine::{tokenize, AcceptanceIndex, CompleteResult, Suggestion};

#[test]
fn equal_match_priority_keeps_input_order_without_shell_frecency_tie_break() {
    let frecency = Frecency::from_commands(vec![("checkout".into(), 900), ("cherry-pick".into(), 1)]);
    let mut result = CompleteResult {
        suggestions: vec![
            Suggestion::new("cherry-pick", "Apply commits", "subcommand"),
            Suggestion::new("checkout", "Switch branches", "subcommand"),
        ],
        search_term: "ch".into(),
        match_term: "ch".into(),
        fuzzy: false,
        ..CompleteResult::default()
    };
    apply(&mut result, &["ch".into()], &frecency);
    assert_eq!(result.suggestions[0].name, "cherry-pick");
    assert_eq!(result.suggestions[1].name, "checkout");
}

#[test]
fn exact_and_case_insensitive_matches_beat_prefixes() {
    let frecency = Frecency::default();
    let mut result = CompleteResult {
        suggestions: vec![
            Suggestion::new("git-status", "", "subcommand"),
            Suggestion::new("Git", "", "subcommand"),
            Suggestion::new("git", "", "subcommand"),
        ],
        search_term: "git".into(),
        match_term: "git".into(),
        fuzzy: false,
        ..CompleteResult::default()
    };
    apply(&mut result, &["git".into()], &frecency);
    assert_eq!(
        result
            .suggestions
            .iter()
            .map(|item| item.name.as_str())
            .collect::<Vec<_>>(),
        vec!["git", "Git", "git-status"]
    );
}

#[test]
fn ranking_uses_each_suggestions_query_term_override() {
    let frecency = Frecency::default();
    let mut result = CompleteResult {
        suggestions: vec![
            Suggestion::new("scope@foobar", "", "arg"),
            Suggestion::new("foo", "", "arg").with_query_term(Some("foo".into())),
        ],
        search_term: "scope@foo".into(),
        match_term: "scope@foo".into(),
        fuzzy: false,
        ..CompleteResult::default()
    };
    apply(&mut result, &["cmd".into(), "scope@foo".into()], &frecency);
    assert_eq!(result.suggestions[0].name, "foo");
    assert_eq!(result.suggestions[1].name, "scope@foobar");
}

#[test]
fn empty_query_keeps_equal_priority_input_order() {
    let frecency = Frecency::from_commands(vec![("git alpha".into(), 10_000), ("git zeta".into(), 1)]);
    let mut result = CompleteResult {
        suggestions: vec![
            Suggestion::new("zeta", "", "subcommand"),
            Suggestion::new("alpha", "", "subcommand"),
        ],
        search_term: String::new(),
        match_term: String::new(),
        fuzzy: false,
        ..CompleteResult::default()
    };
    apply(&mut result, &["git".into()], &frecency);
    assert_eq!(
        result
            .suggestions
            .iter()
            .map(|item| item.name.as_str())
            .collect::<Vec<_>>(),
        vec!["zeta", "alpha"]
    );
}

#[test]
fn auto_execute_precedes_clamped_normal_priorities() {
    let frecency = Frecency::default();
    let low = Suggestion::new("low", "", "arg").with_priority(-4);
    let zero = Suggestion::new("zero", "", "arg").with_priority(0);
    let high = Suggestion::new("high", "", "arg").with_priority(900);
    let mut auto = Suggestion::new("↪", "", "auto-execute");
    auto.priority = 0;
    let mut result = CompleteResult {
        suggestions: vec![low, zero, high, auto],
        search_term: String::new(),
        match_term: String::new(),
        fuzzy: false,
        ..CompleteResult::default()
    };
    apply(&mut result, &[], &frecency);
    assert_eq!(
        result
            .suggestions
            .iter()
            .map(|item| item.name.as_str())
            .collect::<Vec<_>>(),
        vec!["↪", "high", "zero", "low"]
    );
    assert_eq!(result.suggestions[1].priority, 100);
    assert_eq!(result.suggestions[2].priority, 50);
    assert_eq!(result.suggestions[3].priority, 0);
}

#[test]
fn acceptance_recency_promotes_only_the_matching_root_and_name() {
    let acceptance = AcceptanceIndex::from_entries(vec![
        ("git".into(), "push".into(), 2_000_000_000_000),
        ("docker".into(), "run".into(), 2_000_000_000_000),
    ]);
    let mut result = CompleteResult {
        suggestions: vec![
            Suggestion::new("status", "", "subcommand"),
            Suggestion::new("push", "", "subcommand"),
        ],
        search_term: String::new(),
        match_term: String::new(),
        fuzzy: false,
        ..CompleteResult::default()
    };
    apply_with_acceptance(
        &mut result,
        &["git".into()],
        &Frecency::default(),
        &acceptance,
        "git",
        false,
    );
    assert_eq!(result.suggestions[0].name, "push");

    let mut isolated = CompleteResult {
        suggestions: vec![
            Suggestion::new("run", "", "subcommand"),
            Suggestion::new("status", "", "subcommand"),
        ],
        search_term: String::new(),
        match_term: String::new(),
        fuzzy: false,
        ..CompleteResult::default()
    };
    apply_with_acceptance(
        &mut isolated,
        &["git".into()],
        &Frecency::default(),
        &acceptance,
        "git",
        false,
    );
    assert_eq!(
        isolated.suggestions[0].name, "run",
        "docker's acceptance must not leak into git"
    );
}

#[test]
fn acceptance_update_is_visible_to_the_next_ranking_request() {
    let mut acceptance = AcceptanceIndex::default();
    let mut before = CompleteResult {
        suggestions: vec![
            Suggestion::new("status", "", "subcommand"),
            Suggestion::new("push", "", "subcommand"),
        ],
        search_term: String::new(),
        match_term: String::new(),
        fuzzy: false,
        ..CompleteResult::default()
    };
    apply_with_acceptance(
        &mut before,
        &["git".into()],
        &Frecency::default(),
        &acceptance,
        "git",
        false,
    );
    assert_eq!(before.suggestions[0].name, "status");

    acceptance.record_at("git", "push", 2_000_000_000_000);
    let mut after = CompleteResult {
        suggestions: vec![
            Suggestion::new("status", "", "subcommand"),
            Suggestion::new("push", "", "subcommand"),
        ],
        search_term: String::new(),
        match_term: String::new(),
        fuzzy: false,
        ..CompleteResult::default()
    };
    apply_with_acceptance(
        &mut after,
        &["git".into()],
        &Frecency::default(),
        &acceptance,
        "git",
        false,
    );
    assert_eq!(after.suggestions[0].name, "push");
}

#[test]
fn acceptance_index_round_trips_and_excludes_navigation_rows() {
    let mut index = AcceptanceIndex::default();
    assert!(!index.record_at("git", "↪", 10));
    assert!(!index.record_at("git", "../", 10));
    assert!(index.record_at("git", "status", 123));
    let stored: Vec<(String, String, u64)> = index
        .entries()
        .iter()
        .map(|entry| (entry.command.clone(), entry.name.clone(), entry.timestamp))
        .collect();
    let restored = AcceptanceIndex::from_entries(stored);
    assert_eq!(restored.timestamp("git", "status"), Some(123));
    assert_eq!(restored.timestamp("git", "↪"), None);
}

#[test]
fn alphabetical_ranking_disables_acceptance_but_deduplicates_stably() {
    let acceptance = AcceptanceIndex::from_entries(vec![("git".into(), "alpha".into(), 2_000_000_000_000)]);
    let mut result = CompleteResult {
        suggestions: vec![
            Suggestion::new("zeta", "", "subcommand"),
            Suggestion::new("alpha", "", "subcommand"),
            Suggestion::new("alpha", "", "subcommand"),
        ],
        search_term: String::new(),
        match_term: String::new(),
        fuzzy: false,
        ..CompleteResult::default()
    };
    apply_with_acceptance(
        &mut result,
        &["git".into()],
        &Frecency::default(),
        &acceptance,
        "git",
        true,
    );
    assert_eq!(
        result
            .suggestions
            .iter()
            .map(|item| item.name.as_str())
            .collect::<Vec<_>>(),
        vec!["zeta", "alpha"]
    );
}

#[test]
fn first_token_inserts_matching_history() {
    let frecency = Frecency::from_commands(vec![("git checkout -b feature".into(), 40)]);
    let mut result = CompleteResult {
        suggestions: Vec::new(),
        search_term: "git".into(),
        match_term: "git".into(),
        fuzzy: false,
        ..CompleteResult::default()
    };
    merge_history(&mut result, &["git".into()], &frecency, false);
    assert!(
        result
            .suggestions
            .iter()
            .any(|s| s.name.starts_with("git checkout") && s.kind == "history"),
        "{:?}",
        result.suggestions
    );
}

#[test]
fn history_uses_recent_source_order_and_last_duplicate_wins() {
    // History rows arrive oldest-first (including custom-command output),
    // so the old generator walks them backwards before deduplicating.
    // Timestamps are intentionally misleading: they must not reorder the
    // source sequence by shell frecency.
    let frecency = Frecency::from_commands(vec![("git old".into(), 900), ("git new".into(), 1), ("git old".into(), 2)]);
    assert_eq!(
        frecency
            .history_suffix_suggestions("git ", "", false)
            .iter()
            .map(|item| item.name.as_str())
            .collect::<Vec<_>>(),
        vec!["old", "new"]
    );
    assert_eq!(
        frecency
            .history_suggestions("git", false, false)
            .iter()
            .map(|item| item.name.as_str())
            .collect::<Vec<_>>(),
        vec!["git old", "git new"]
    );
}

#[test]
fn history_dedup_considers_flattened_static_aliases() {
    let frecency = Frecency::from_commands(vec![("git checkout".into(), 1)]);
    let mut result = CompleteResult {
        suggestions: vec![
            Suggestion::new("co", "", "subcommand")
                .with_primary_name(Some("checkout".into()))
                .with_alias_names(vec!["checkout".into(), "co".into()]),
        ],
        search_term: "co".into(),
        match_term: "co".into(),
        fuzzy: false,
        ..CompleteResult::default()
    };
    merge_history(&mut result, &["git".into(), "co".into()], &frecency, false);
    assert!(result.suggestions.iter().all(|item| item.kind != "history"));
}

#[test]
fn history_after_partial_second_token_uses_only_the_suffix() {
    let frecency = Frecency::from_commands(vec![
        ("git commit -m feature".into(), 40),
        ("git cherry-pick main".into(), 30),
    ]);
    assert!(matches_query("commit -m feature", "co", false));
    assert_eq!(
        frecency
            .history_suffix_suggestions("git ", "co", false)
            .iter()
            .map(|item| item.name.as_str())
            .collect::<Vec<_>>(),
        vec!["commit -m feature"]
    );
    let mut result = CompleteResult {
        suggestions: vec![Suggestion::new("commit", "Record changes", "subcommand")],
        search_term: "'co".into(),
        match_term: "co".into(),
        fuzzy: false,
        ..CompleteResult::default()
    };
    merge_history(&mut result, &["git".into(), "co".into()], &frecency, false);
    let history = result
        .suggestions
        .iter()
        .find(|item| item.kind == "history")
        .unwrap_or_else(|| panic!("history suffix missing from {:?}", result.suggestions));
    assert_eq!(history.name, "commit -m feature");
    assert_eq!(history.insert_value.as_deref(), Some("commit -m feature"));
    assert!(!history.name.starts_with("git "));
}

#[test]
fn history_frequency_boosts_the_matching_static_first_word() {
    let frecency =
        Frecency::from_commands(vec![("git checkout -b one".into(), 10), ("git checkout -b two".into(), 20)]);
    let mut explicit_76 = Suggestion::new("cherry-pick", "", "subcommand");
    explicit_76.priority = 76;
    let mut result = CompleteResult {
        suggestions: vec![explicit_76, Suggestion::new("checkout", "", "subcommand")],
        search_term: "ch".into(),
        match_term: "ch".into(),
        fuzzy: false,
        ..CompleteResult::default()
    };
    merge_history(&mut result, &["git".into(), "ch".into()], &frecency, false);
    apply(&mut result, &["git".into(), "ch".into()], &frecency);

    // Two history hits are 75.2, so they boost static checkout above 75
    // but do not leap over an explicit priority of 76.
    assert_eq!(result.suggestions[0].name, "cherry-pick");
    let checkout = result
        .suggestions
        .iter()
        .position(|item| item.name == "checkout")
        .expect("static checkout");
    let checkout_history = result
        .suggestions
        .iter()
        .position(|item| item.kind == "history")
        .expect("checkout history");
    assert!(checkout < checkout_history);
}

#[test]
fn duplicate_history_entries_count_before_dedup() {
    let frecency = Frecency::from_commands(vec![
        ("git checkout -b feature".into(), 10),
        ("git checkout -b feature".into(), 20),
    ]);
    let history = frecency.history_suffix_suggestions("git ", "ch", false);
    assert_eq!(history.len(), 1);
    assert_eq!(history[0].priority, 75);
}

#[test]
fn trailing_space_inserts_history_suffixes_without_repeating_the_command() {
    let frecency = Frecency::from_commands(vec![("git checkout -b feature".into(), 40), ("npm test".into(), 50)]);
    let mut result = CompleteResult {
        suggestions: vec![Suggestion::new("checkout", "", "subcommand")],
        search_term: String::new(),
        match_term: String::new(),
        fuzzy: false,
        ..CompleteResult::default()
    };
    merge_history(&mut result, &["git".into()], &frecency, false);
    assert!(
        result.suggestions.iter().all(|s| !s.name.starts_with("git ")),
        "{:?}",
        result.suggestions
    );
    assert!(
        result
            .suggestions
            .iter()
            .any(|s| s.name == "checkout -b feature" && s.kind == "history"),
        "{:?}",
        result.suggestions
    );
}

#[test]
fn dedup_matches_old_fields_and_ignores_description_and_kind() {
    let frecency = Frecency::default();
    let mut result = CompleteResult {
        suggestions: vec![
            Suggestion::new("status", "one", "subcommand"),
            Suggestion::new("status", "two", "subcommand"),
            Suggestion::new("status", "", "history").with_insert_value("status"),
            Suggestion::new("status", "", "history").with_insert_value("status"),
        ],
        search_term: "st".into(),
        match_term: "st".into(),
        fuzzy: false,
        ..CompleteResult::default()
    };
    apply(&mut result, &["git".into(), "st".into()], &frecency);
    assert_eq!(result.suggestions.len(), 2);
    assert_eq!(result.suggestions[0].kind, "subcommand");
    assert_eq!(result.suggestions[1].kind, "history");
}

#[test]
fn history_shell_normalization_accepts_paths_and_figterm_suffixes() {
    assert_eq!(normalize_history_shell(Some("/bin/zsh")), HistoryShell::Zsh);
    assert_eq!(normalize_history_shell(Some("bash (figterm)")), HistoryShell::Bash);
    assert_eq!(normalize_history_shell(Some("/usr/local/bin/fish")), HistoryShell::Fish);
    assert_eq!(normalize_history_shell(Some("nu")), HistoryShell::Unknown);
    assert_eq!(normalize_history_shell(None), HistoryShell::Unknown);
}

#[test]
fn history_source_key_changes_only_with_source_inputs() {
    let zsh = history_source_config(None, false, Some("/bin/zsh"), None);
    let zsh_again = history_source_config(None, false, Some("zsh"), Some("bash"));
    let zsh_from_process = history_source_config(None, false, Some("unknown"), Some("/bin/zsh"));
    let bash = history_source_config(None, false, Some("bash"), None);
    let all_shells = history_source_config(None, true, Some("zsh"), None);
    let custom = history_source_config(Some("fc -ln 1".into()), false, Some("zsh"), None);

    assert_eq!(zsh, zsh_again);
    assert_eq!(zsh, zsh_from_process);
    assert_ne!(zsh, bash);
    assert_ne!(zsh, all_shells);
    assert_ne!(zsh, custom);
}

#[test]
fn custom_history_output_keeps_lines_and_discards_blank_lines() {
    assert_eq!(
        history_commands_from_output("git status\n\n git add . \n"),
        vec![("git status".into(), 0), (" git add . ".into(), 0)]
    );
    assert!(history_commands_from_output("\n  \n").is_empty());
}

#[test]
fn history_shell_selection_matches_legacy_sources() {
    let zsh = history_source_config(None, false, Some("zsh"), None);
    assert!(includes_database_shell(&zsh, HistoryShell::Zsh));
    assert!(!includes_database_shell(&zsh, HistoryShell::Bash));
    assert!(!includes_database_shell(&zsh, HistoryShell::Fish));

    let merged = history_source_config(None, true, Some("/bin/bash"), None);
    assert!(includes_database_shell(&merged, HistoryShell::Zsh));
    assert!(includes_database_shell(&merged, HistoryShell::Bash));
    assert!(!includes_database_shell(&merged, HistoryShell::Fish));

    let fish = history_source_config(None, true, Some("fish"), None);
    assert!(includes_database_shell(&fish, HistoryShell::Fish));
    assert!(!includes_database_shell(&fish, HistoryShell::Zsh));

    let unknown = history_source_config(None, false, Some("nu"), None);
    assert!(includes_database_shell(&unknown, HistoryShell::Zsh));
    assert!(includes_database_shell(&unknown, HistoryShell::Bash));
    assert!(includes_database_shell(&unknown, HistoryShell::Fish));
}

fn walk_next_word_counts(commands: &[(String, u64)], prefix: &str) -> HashMap<String, usize> {
    let mut counts = HashMap::new();
    let full_prefix = (!prefix.is_empty()).then(|| format!("{prefix} "));
    for (command, _) in commands {
        let suffix = match full_prefix.as_deref() {
            Some(prefix) => match command.strip_prefix(prefix) {
                Some(suffix) => suffix,
                None => continue,
            },
            None => command.as_str(),
        };
        let first_word = suffix.split_whitespace().next().unwrap_or_default();
        if !first_word.is_empty() {
            *counts.entry(first_word.to_string()).or_default() += 1;
        }
    }
    counts
}

#[test]
fn next_word_index_matches_the_per_request_walk() {
    let commands: [(String, u64); 4] = [
        ("git checkout main".into(), 1_u64),
        ("git status".into(), 2),
        ("echo hi".into(), 3),
        ("git  checkout".into(), 4),
    ];
    let frecency = Frecency::from_commands(commands.to_vec());
    for prefix in ["", "git", "git checkout", "echo", "missing", "git "] {
        let counts = walk_next_word_counts(&commands, prefix);
        for word in ["checkout", "status", "main", "hi", "git", "echo", "missing", ""] {
            assert_eq!(
                frecency.next_word_count(prefix, word),
                counts.get(word).copied().unwrap_or(0),
                "prefix {prefix:?} word {word:?}"
            );
        }
    }
}

#[test]
fn history_prefix_keeps_quotes_and_double_spaces_from_the_buffer() {
    let (tokens, ends) = tokenize("git  'ch");
    assert_eq!(
        history_prefix_from_buffer("git  'ch", ends, &tokens).as_deref(),
        Some("git  '")
    );
    let (tokens, ends) = tokenize("g checkout");
    assert_eq!(
        history_prefix_from_buffer("g checkout", ends, &tokens).as_deref(),
        Some("g ")
    );
    let (tokens, ends) = tokenize("git ");
    assert_eq!(
        history_prefix_from_buffer("git ", ends, &tokens).as_deref(),
        Some("git ")
    );
    let (tokens, ends) = tokenize("git");
    assert_eq!(history_prefix_from_buffer("git", ends, &tokens), None);
}
