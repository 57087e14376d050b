//! The completion that commands offer themselves.
use ec_engine::cobra::{
    binary_candidates, cache_key, complete, complete_args, filter_cached, parse_complete_output,
    Cache, MAX_CACHED,
};

fn names(rows: &[ec_engine::Suggestion]) -> Vec<&str> {
    rows.iter().map(|row| row.name.as_str()).collect()
}

#[test]
fn parses_tab_separated_and_plain_lines() {
    let suggestions = parse_complete_output("alpha\tfirst\nbeta\n:4\n");
    assert_eq!(suggestions.len(), 2);
    assert_eq!(suggestions[0].name, "alpha");
    assert_eq!(suggestions[0].description, "first");
    assert_eq!(suggestions[1].name, "beta");
}

#[test]
fn directives_and_private_lines_are_no_rows() {
    let rows = parse_complete_output("_activeHelp_ x\n:12\n:\n:x\n\t\n  gamma  \t about \r\n");
    assert_eq!(names(&rows), vec![":x", "gamma"]);
    assert_eq!(rows[1].description, "about");
    assert_eq!(rows[1].insert_value.as_deref(), Some("gamma"));
    let many: String = (0..60).map(|i| format!("row{i}\n")).collect();
    assert_eq!(parse_complete_output(&many).len(), 50);
}

#[test]
fn probes_fake_binary() {
    let mut cache: Cache = Cache::new(MAX_CACHED);
    let tokens = ["/tmp/fakecobra".to_string(), "fea".into()];
    assert!(complete(&mut cache, "/tmp/fakecobra", Some(1), &tokens, false, None).is_none());
    let output = "feature-x\tbranch\nfeature-y\n:4\n";
    let rows = complete(&mut cache, "/tmp/fakecobra", Some(1), &tokens, false, Some(Some(output)))
        .expect("rows");
    assert!(names(&rows).contains(&"feature-x"), "{rows:?}");
    assert!(names(&rows).contains(&"feature-y"), "{rows:?}");
    let kept = complete(&mut cache, "/tmp/fakecobra", Some(1), &tokens, false, None).expect("kept");
    assert_eq!(names(&kept), names(&rows));
    assert!(complete(&mut cache, "/tmp/fakecobra", Some(2), &tokens, false, None).is_none());
    let none = complete(&mut cache, "/tmp/fakecobra", Some(2), &tokens, false, Some(None));
    assert_eq!(none.expect("no answer").len(), 0);
}

#[test]
fn filters_last_token_prefix() {
    let rows = parse_complete_output("alpha\nbeta\n:4\n");
    let tokens = ["tool".to_string(), "al".into()];
    assert_eq!(names(&filter_cached(&rows, &tokens, false)), vec!["alpha"]);
    assert_eq!(filter_cached(&rows, &["al".to_string()], false).len(), 2);
    assert_eq!(filter_cached(&rows, &["tool".to_string(), String::new()], false).len(), 2);
}

#[test]
fn commands_are_asked_with_their_words() {
    let tokens = ["tool".to_string(), "a".into(), "b".into()];
    assert_eq!(complete_args(&tokens), vec!["__complete", "a", "b"]);
    assert_eq!(complete_args(&tokens[..1]), vec!["__complete"]);
    assert_eq!(cache_key("/bin/tool", &tokens), "/bin/tool|a\u{1f}b");
}

#[test]
fn binaries_are_looked_for_along_the_path() {
    let dirs = ["/bin".to_string(), "/usr/bin/".into()];
    assert_eq!(binary_candidates("tool", "/work", &dirs), vec!["/bin/tool", "/usr/bin/tool"]);
    assert_eq!(binary_candidates("./tool", "/work", &dirs), vec!["/work/./tool"]);
    assert_eq!(binary_candidates("/opt/tool", "/work", &dirs), vec!["/opt/tool"]);
}

#[test]
fn cache_evicts_least_recently_used() {
    let mut cache: Cache = Cache::new(MAX_CACHED);
    for i in 0..MAX_CACHED {
        cache.insert(&format!("k{i}"), None, Vec::new());
    }
    assert!(cache.get("k0", None).is_some());
    cache.insert("k-new", None, Vec::new());
    assert!(cache.contains_key("k0"));
    assert!(!cache.contains_key("k1"));
    assert!(cache.contains_key("k-new"));
    assert_eq!(cache.len(), MAX_CACHED);
}
