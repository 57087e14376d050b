//! Path rows, from entries in memory.
use ec_engine::filegen::expand::{
    dir_prefix, expand_home, expand_home_with, split_prefix, tilde_user, Places,
};
use ec_engine::filegen::filter::{filter_admits, pattern_with_flags, PathFilter};
use ec_engine::filegen::list::{
    complete_entries, complete_path, complete_path_filtered, directory_to_list, DirEntry,
};

fn file(name: &str) -> DirEntry {
    DirEntry { name: name.to_owned(), is_dir: false }
}

fn folder(name: &str) -> DirEntry {
    DirEntry { name: name.to_owned(), is_dir: true }
}

fn home() -> Places {
    Places {
        variables: vec![("HOME".into(), "/Users/test".into())],
        home: Some("/Users/test".into()),
        user_home: None,
    }
}

fn names(rows: &[ec_engine::Suggestion]) -> Vec<&str> {
    rows.iter().map(|row| row.name.as_str()).collect()
}

fn filtered(filter: &PathFilter<'_>, entries: &[DirEntry]) -> Vec<String> {
    complete_path_filtered("", "/work", false, filter, &Places::default(), Some(entries))
        .into_iter()
        .map(|row| row.name)
        .collect()
}

#[test]
fn completes_file_and_folder_prefix() {
    let entries = [file("readme.md"), folder("src")];
    let files = complete_path("re", "/work", false, false, &home(), Some(&entries));
    assert!(files.iter().any(|s| s.name.starts_with("readme")), "{files:?}");
    let folders = complete_path("s", "/work", true, false, &home(), Some(&entries));
    assert!(folders.iter().any(|s| s.name == "src/"), "{folders:?}");
    assert!(folders.iter().all(|s| s.kind == "folder"));
}

#[test]
fn preserves_directory_prefix_in_names() {
    let filter = PathFilter::default();
    let parts = directory_to_list("src/m", "/work", &filter, &home());
    assert_eq!(parts, Some(("/work/src/".into(), "m".into())));
    let entries = [file("main.rs")];
    let files = complete_path("src/m", "/work", false, false, &home(), Some(&entries));
    assert!(files.iter().any(|s| s.name == "src/main.rs"), "{files:?}");
}

#[test]
fn includes_dotfiles_and_parent_like_legacy_generator() {
    let entries = [file(".hidden"), file(".DS_Store"), file("visible")];
    let all = complete_path("", "/work", false, false, &home(), Some(&entries));
    assert_eq!(names(&all), vec!["visible", ".hidden", "../"]);
    assert_eq!(all[0].description, "file");
    assert_eq!(all[2].description, "folder");

    let dotted = complete_path(".", "/work", false, false, &home(), Some(&entries));
    assert!(dotted.iter().any(|s| s.name == ".hidden"), "{dotted:?}");
    let parent = dotted.iter().find(|s| s.name == "../").expect("parent");
    assert_eq!(parent.query_term.as_deref(), Some("."));
    assert!(dotted.iter().all(|s| s.name.starts_with('.')), "{dotted:?}");
}

#[test]
fn parent_keeps_typed_directory_prefix() {
    let suggestions = complete_path("src/", "/work", false, false, &home(), Some(&[]));
    let parent = suggestions.iter().find(|s| s.name == "../").expect("parent");
    assert_eq!(parent.query_term.as_deref(), Some(""));
    assert_eq!(parent.insert_value.as_deref(), Some("../"));
}

#[test]
fn path_rows_keep_raw_insert_value_for_shell_escaping() {
    let entries = [file("my file's.txt")];
    let row = complete_path("my", "/work", false, false, &home(), Some(&entries))
        .into_iter()
        .find(|s| s.name == "my file's.txt")
        .expect("path row");
    assert_eq!(row.insert_value.as_deref(), Some("my file's.txt"));
    assert_eq!(row.description, "file");
}

#[test]
fn sorts_regular_entries_before_dotfiles_and_parent() {
    let entries = [file("zeta"), file("Alpha"), file(".zeta"), file(".Alpha"), file("beta")];
    let rows = complete_path("", "/work", false, false, &home(), Some(&entries));
    assert_eq!(names(&rows), vec!["Alpha", "beta", "zeta", ".Alpha", ".zeta", "../"]);
}

#[test]
fn lowercase_comes_first_among_equal_spellings() {
    let entries = [file("A"), file("a"), file("\u{c4}b"), file("\u{e4}b"), file("ab")];
    let rows = complete_path("", "/work", false, false, &home(), Some(&entries));
    assert_eq!(names(&rows), vec!["a", "A", "ab", "\u{e4}b", "\u{c4}b", "../"]);
}

#[test]
fn preserves_tilde_prefix() {
    assert_eq!(dir_prefix("~/Des"), "~/");
    assert_eq!(dir_prefix("~"), "");
    let expanded = expand_home("~/Desktop", &home());
    assert!(expanded.starts_with("/Users/test") && expanded.ends_with("Desktop"), "{expanded}");
    let home_dir = expand_home("~", &home());
    assert!(home_dir.ends_with('/'), "{home_dir}");
    assert_eq!(expand_home("~/", &home()), home_dir);
}

#[test]
fn repeated_slashes_stay_below_the_home_directory() {
    assert_eq!(expand_home("~//tmp", &home()), "/Users/test/tmp");
    let unset = Places { home: Some("/elsewhere/".into()), ..Places::default() };
    assert_eq!(expand_home("~", &unset), "/elsewhere/");
    assert_eq!(expand_home("~/a", &unset), "/elsewhere/a");
    assert_eq!(expand_home("~/a", &Places::default()), "~/a");
}

#[test]
fn matches_regex_keeps_env_files_and_unfiltered_folders() {
    let entries = [file(".env"), file(".env.foo"), file("keep.py"), folder("folder")];
    let filter = PathFilter { matches: Some(r"^\.env.*$"), ..PathFilter::default() };
    let names = filtered(&filter, &entries);
    assert!(names.contains(&".env".into()), "{names:?}");
    assert!(names.contains(&".env.foo".into()), "{names:?}");
    assert!(names.contains(&"folder/".into()), "{names:?}");
    assert!(names.contains(&"../".into()), "{names:?}");
    assert!(!names.contains(&"keep.py".into()), "{names:?}");
}

#[test]
fn matches_javascript_negative_lookahead() {
    let entries = [file(".env"), file(".envrc"), file(".env.local")];
    let filter = PathFilter {
        matches: Some(r"\.env(?!rc)"),
        matches_flags: Some("g"),
        ..PathFilter::default()
    };
    let names = filtered(&filter, &entries);
    assert!(names.contains(&".env".into()), "{names:?}");
    assert!(names.contains(&".env.local".into()), "{names:?}");
    assert!(!names.contains(&".envrc".into()), "{names:?}");
}

#[test]
fn flags_of_expressions_stand_in_front() {
    assert_eq!(pattern_with_flags(Some("a.b"), Some("gsmi")).as_deref(), Some("(?ims)a.b"));
    assert_eq!(pattern_with_flags(Some("a.b"), Some("g")).as_deref(), Some("a.b"));
    assert_eq!(pattern_with_flags(Some(""), Some("i")), None);
    assert_eq!(pattern_with_flags(None, Some("i")), None);
    let entries = [file("README"), file("other")];
    let filter = PathFilter {
        matches: Some("^readme$"),
        matches_flags: Some("i"),
        filter_folders: true,
        ..PathFilter::default()
    };
    assert_eq!(filtered(&filter, &entries), vec!["README"]);
}

#[test]
fn broken_expressions_match_nothing() {
    let entries = [file("a("), folder("b")];
    let filter = PathFilter { matches: Some("("), ..PathFilter::default() };
    assert_eq!(filtered(&filter, &entries), vec!["b/", "../"]);
}

#[test]
fn equals_keeps_named_file_and_unfiltered_folders() {
    let entries = [file("Cargo.toml"), file("keep.py"), folder("src")];
    let equals = vec!["Cargo.toml".into()];
    let filter = PathFilter { equals: &equals, ..PathFilter::default() };
    let names = filtered(&filter, &entries);
    assert!(names.contains(&"Cargo.toml".into()), "{names:?}");
    assert!(names.contains(&"src/".into()), "{names:?}");
    assert!(!names.contains(&"keep.py".into()), "{names:?}");
}

#[test]
fn filter_folders_drops_unrelated_directories_and_parent() {
    let entries = [file("keep.py"), folder("folder")];
    let extensions = vec!["py".into()];
    let filter = PathFilter {
        extensions: &extensions,
        filter_folders: true,
        ..PathFilter::default()
    };
    let names = filtered(&filter, &entries);
    assert!(names.contains(&"keep.py".into()), "{names:?}");
    assert!(!names.contains(&"folder/".into()), "{names:?}");
    assert!(!names.contains(&"../".into()), "{names:?}");
}

#[test]
fn extensions_keep_matching_suffixes_and_unfiltered_folders() {
    let entries = [file("keep.py"), file("drop.txt"), file("foo.bar.py"), folder("folder")];
    let extensions = vec!["py".into()];
    let filter = PathFilter { extensions: &extensions, ..PathFilter::default() };
    let names = filtered(&filter, &entries);
    assert!(names.contains(&"keep.py".into()), "{names:?}");
    assert!(names.contains(&"foo.bar.py".into()), "{names:?}");
    assert!(names.contains(&"folder/".into()), "{names:?}");
    assert!(!names.contains(&"drop.txt".into()), "{names:?}");
}

#[test]
fn extensions_are_what_follows_any_dot() {
    let extensions = vec!["bar.py".to_owned()];
    let filter = PathFilter { extensions: &extensions, ..PathFilter::default() };
    assert!(filter_admits(&filter, "foo.bar.py", false, false));
    assert!(!filter_admits(&filter, "foo.py", false, false));
    assert!(!filter_admits(&filter, "bar", false, false));
    assert!(filter_admits(&filter, "anything", false, true));
    assert!(filter_admits(&filter, "folder/", true, false));
}

#[test]
fn shell_environment_overrides_process_variables() {
    let key = "EC_FILEGEN_SHELL_ENV";
    let places = Places {
        variables: vec![(key.into(), "/from-process".into())],
        ..Places::default()
    };
    let env = vec![(key.to_string(), "/from-shell".into())];
    assert_eq!(expand_home_with(&format!("${key}/child"), &env, &places), "/from-shell/child");
    assert_eq!(expand_home(&format!("${key}/child"), &places), "/from-process/child");
}

#[test]
fn expands_home_environment_prefixes() {
    assert_eq!(expand_home("$HOME", &home()), "/Users/test");
    assert_eq!(expand_home("${HOME}/", &home()), "/Users/test/");
}

#[test]
fn expands_simple_and_braced_environment_variables() {
    let key = "EC_FILEGEN_EXPANSION_TEST";
    let places = Places {
        variables: vec![(key.into(), "/tmp/easy-complete-expansion".into())],
        ..Places::default()
    };
    assert_eq!(
        expand_home(&format!("${key}/child"), &places),
        "/tmp/easy-complete-expansion/child"
    );
    assert_eq!(
        expand_home(&format!("${{{key}}}/child"), &places),
        "/tmp/easy-complete-expansion/child"
    );
    assert_eq!(
        expand_home("${EC_FILEGEN_MISSING:-fallback}/child", &places),
        "fallback/child"
    );
}

#[test]
fn leaves_unknown_or_malformed_variables_literal() {
    let places = home();
    assert_eq!(
        expand_home("$EC_FILEGEN_UNKNOWN_LITERAL/child", &places),
        "$EC_FILEGEN_UNKNOWN_LITERAL/child"
    );
    assert_eq!(
        expand_home("${EC_FILEGEN_UNKNOWN_LITERAL}/child", &places),
        "${EC_FILEGEN_UNKNOWN_LITERAL}/child"
    );
    assert_eq!(
        expand_home("${EC_FILEGEN_UNKNOWN_LITERAL", &places),
        "${EC_FILEGEN_UNKNOWN_LITERAL"
    );
    assert_eq!(expand_home("$/child", &places), "$/child");
    assert_eq!(expand_home("${a b}/${:-x}$", &places), "${a b}/${:-x}$");
}

#[test]
fn expands_environment_prefix_for_filesystem_lookup_but_preserves_insertion_prefix() {
    let key = "EC_FILEGEN_PREFIX_TEST";
    let places = Places {
        variables: vec![(key.into(), "/tmp/dir".into())],
        ..Places::default()
    };
    let prefix = format!("${key}/猫");
    let filter = PathFilter { folders_only: true, ..PathFilter::default() };
    assert_eq!(
        directory_to_list(&prefix, "/", &filter, &places),
        Some(("/tmp/dir/".into(), "猫".into()))
    );
    let entries = [folder("猫目录")];
    let suggestions = complete_path(&prefix, "/", true, false, &places, Some(&entries));
    assert!(
        suggestions.iter().any(|suggestion| suggestion.name == format!("{prefix}目录/")),
        "{suggestions:?}"
    );
}

#[test]
fn handles_absolute_relative_and_unicode_queries() {
    let entries = [folder("相対"), folder("absolute")];
    let relative = complete_path("相", "/work", true, false, &home(), Some(&entries));
    assert!(relative.iter().any(|suggestion| suggestion.name == "相対/"), "{relative:?}");
    let absolute = complete_path("/work/ab", "/", true, false, &home(), Some(&entries));
    assert!(
        absolute.iter().any(|suggestion| suggestion.name == "/work/absolute/"),
        "{absolute:?}"
    );
    assert_eq!(split_prefix("/work/ab", "/").0, "/work/");
    assert_eq!(split_prefix("ab", "").0, "");
    assert_eq!(split_prefix("/ab", "").0, "/");
}

#[test]
fn expands_existing_local_user_home_and_leaves_unknown_user_literal() {
    assert_eq!(tilde_user("~root/Desktop").as_deref(), Some("root"));
    assert_eq!(tilde_user("~/Desktop"), None);
    assert_eq!(tilde_user("~"), None);
    assert_eq!(tilde_user("root"), None);
    let root = Places { user_home: Some("/root".into()), ..Places::default() };
    assert_eq!(expand_home("~root", &root), "/root/");
    assert_eq!(expand_home("~root/", &root), "/root/");
    assert_eq!(expand_home("~root/Desktop", &root), "/root/Desktop");
    assert_eq!(
        expand_home("~ec-filegen-no-such-user-9/", &home()),
        "~ec-filegen-no-such-user-9/"
    );
}

#[test]
fn relative_prefixes_need_a_directory() {
    let entries = [file("a")];
    assert!(complete_path("a", "", false, false, &home(), Some(&entries)).is_empty());
    assert!(complete_path("a", "/work", false, false, &home(), None).is_empty());
    let filter = PathFilter { root_directory: Some("/srv"), ..PathFilter::default() };
    assert_eq!(
        directory_to_list("x/y", "", &filter, &Places::default()),
        Some(("/srv/x/".into(), "y".into()))
    );
}

#[test]
fn a_bare_tilde_lists_the_home_directory() {
    let entries = [folder("Desktop")];
    let rows = complete_path("~", "/work", true, false, &home(), Some(&entries));
    assert_eq!(names(&rows), vec!["~/Desktop/", "../"]);
}

#[test]
fn at_most_fifty_rows() {
    let entries: Vec<DirEntry> = (0..80).map(|i| file(&format!("f{i:02}"))).collect();
    let rows = complete_path("", "/work", false, false, &home(), Some(&entries));
    assert_eq!(rows.len(), 50);
    assert_eq!(rows[48].name, "f48");
    assert_eq!(rows[49].name, "../");
}

#[test]
fn priorities_come_from_the_filter() {
    let filter = PathFilter {
        file_priority: Some(76),
        folder_priority: Some(0),
        ..PathFilter::default()
    };
    let entries = [file("a"), folder("b")];
    let rows = complete_entries("", "", false, &filter, &entries, &[false, false], false);
    let priorities: Vec<i64> = rows.iter().map(|row| row.priority).collect();
    assert_eq!(priorities, vec![76, 50, 50]);
    let files = PathFilter { files_only: true, ..PathFilter::default() };
    let rows = complete_entries("", "", false, &files, &entries, &[false, false], false);
    assert_eq!(names(&rows), vec!["a"]);
}
