//! Matching names against queries.
use std::cmp::Ordering;

use ec_engine::query::{
    cmp_ignore_ascii_case, fuzzy_indexes, fuzzy_match, match_score, matches_query, MatchKind,
};

#[test]
fn prefix_and_fuzzy_match() {
    assert!(matches_query("checkout", "ch", false));
    assert!(!matches_query("checkout", "ckt", false));
    assert!(matches_query("checkout", "ckt", true));
    assert!(!matches_query("status", "ch", true));
    assert!(matches_query("Checkout", "ch", false));
    assert!(matches_query("文件.txt", "文", true));
}

#[test]
fn fuzzy_indexes_are_character_positions() {
    assert_eq!(fuzzy_indexes("checkout", "ckt").as_deref(), Some(&[0, 4, 7][..]));
    assert_eq!(fuzzy_indexes("checkout", "git"), None);
    assert_eq!(fuzzy_indexes("文件.txt", "文").as_deref(), Some(&[0][..]));
}

#[test]
fn fuzzy_indexes_follow_javascript_utf16_units() {
    assert_eq!(fuzzy_indexes("x😀y", "😀").as_deref(), Some(&[1, 2][..]));
    assert_eq!(fuzzy_indexes("😀", "😀").as_deref(), Some(&[0, 1][..]));
    assert_eq!(fuzzy_match("x😀y", "😀").unwrap().score, -3);

    // JavaScript prepares one code unit for the one-unit query `İ`, even
    // though lowercasing expands it to `i` plus a combining dot.
    assert_eq!(fuzzy_indexes("İ", "i").as_deref(), Some(&[0][..]));
    assert_eq!(fuzzy_indexes("i", "İ").as_deref(), Some(&[0][..]));
    assert_eq!(match_score("İ", "i", true).unwrap().kind, MatchKind::PrefixInsensitive);
}

#[test]
fn fuzzysort_prefers_a_word_boundary_for_repeated_letters() {
    let boundary = fuzzy_match("git-checkout", "ch").expect("boundary match");
    let scattered = fuzzy_match("git config", "gt").expect("scattered match");
    assert!(boundary.score > scattered.score);

    // A repeated character query should not always stick to the first
    // greedy occurrence when a later strict run is available.
    let indexes = fuzzy_indexes("fooBar", "fb").expect("fuzzy match");
    assert_eq!(indexes, vec![0, 3]);
}

#[test]
fn match_buckets_follow_webview_exact_prefix_order() {
    assert_eq!(match_score("git", "git", true).unwrap().kind, MatchKind::ExactCase);
    assert_eq!(
        match_score("Git", "git", true).unwrap().kind,
        MatchKind::ExactInsensitive
    );
    assert_eq!(
        match_score("git-status", "git", true).unwrap().kind,
        MatchKind::PrefixCase
    );
    assert_eq!(
        match_score("Git-status", "git", true).unwrap().kind,
        MatchKind::PrefixInsensitive
    );
}

#[test]
fn cmp_ignore_ascii_case_orders_like_lowercase() {
    assert_eq!(cmp_ignore_ascii_case("Git", "git"), Ordering::Equal);
    assert_eq!(cmp_ignore_ascii_case("gi", "git"), Ordering::Less);
    assert_eq!(cmp_ignore_ascii_case("gzip", "git"), Ordering::Greater);
}
