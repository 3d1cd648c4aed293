use path_complete::matcher::{rank_scored, FuzzyMatcher};

#[test]
fn test_empty_pattern_returns_first_n() {
    let mut matcher = FuzzyMatcher::new();
    let paths = vec![
        "a.txt".to_string(),
        "b.txt".to_string(),
        "c.txt".to_string(),
    ];

    let results = matcher.match_paths(paths, "", 2);
    assert_eq!(results.len(), 2);
    assert_eq!(results[0], "a.txt");
    assert_eq!(results[1], "b.txt");
}

#[test]
fn test_exact_match_ranked_high() {
    let mut matcher = FuzzyMatcher::new();
    let paths = vec![
        "something_main_else.rs".to_string(),
        "main.rs".to_string(),
        "mainly.rs".to_string(),
    ];

    let results = matcher.match_paths(paths, "main.rs", 10);
    assert_eq!(results[0], "main.rs");
}

#[test]
fn test_path_matching() {
    let mut matcher = FuzzyMatcher::new();
    let paths = vec![
        "src/main.rs".to_string(),
        "tests/main_test.rs".to_string(),
        "docs/main.md".to_string(),
    ];

    let results = matcher.match_paths(paths, "src/main", 10);
    assert_eq!(results[0], "src/main.rs");
}

#[test]
fn matcher_test_fuzzy_matching() {
    let mut matcher = FuzzyMatcher::new();
    let paths = vec![
        "configuration.rs".to_string(),
        "config.rs".to_string(),
        "constants.rs".to_string(),
    ];

    let results = matcher.match_paths(paths, "cfg", 10);
    assert!(results.iter().any(|p| p == "config.rs"));
}

#[test]
fn test_limit_respected() {
    let mut matcher = FuzzyMatcher::new();
    let paths: Vec<String> = (0..100).map(|i| format!("file{}.rs", i)).collect();

    let results = matcher.match_paths(paths, "file", 10);
    assert_eq!(results.len(), 10);
}

#[test]
fn test_case_insensitive_by_default() {
    let mut matcher = FuzzyMatcher::new();
    let paths = vec!["README.md".to_string(), "readme.txt".to_string()];

    let results = matcher.match_paths(paths, "readme", 10);
    assert_eq!(results.len(), 2);
}

#[test]
fn test_no_matches_returns_empty() {
    let mut matcher = FuzzyMatcher::new();
    let paths = vec!["foo.rs".to_string(), "bar.rs".to_string()];

    let results = matcher.match_paths(paths, "xyz123", 10);
    assert!(results.is_empty());
}

#[test]
fn test_partial_path_match() {
    let mut matcher = FuzzyMatcher::new();
    let paths = vec![
        "src/components/Button.tsx".to_string(),
        "src/components/Input.tsx".to_string(),
        "src/utils/helpers.ts".to_string(),
    ];

    let results = matcher.match_paths(paths, "comp/but", 10);
    assert!(!results.is_empty());
    assert!(results[0].contains("Button"));
}

#[test]
fn empty_pattern_takes_prefix_of_input_order() {
    let mut matcher = FuzzyMatcher::new();
    let paths = vec!["a".to_string(), "b".to_string(), "c".to_string()];
    assert_eq!(matcher.match_paths(paths, "", 2), vec!["a", "b"]);
}

#[test]
fn empty_pattern_with_large_limit_keeps_all() {
    let mut matcher = FuzzyMatcher::new();
    let paths = vec!["z".to_string(), "y".to_string()];
    assert_eq!(matcher.match_paths(paths, "", 50), vec!["z", "y"]);
}

#[test]
fn exact_name_ranks_first() {
    let mut matcher = FuzzyMatcher::new();
    let paths = vec![
        "main.rs".to_string(),
        "mainly.rs".to_string(),
        "x_main_y.rs".to_string(),
    ];
    let results = matcher.match_paths(paths, "main.rs", 50);
    assert_eq!(results[0], "main.rs");
}

#[test]
fn uppercase_pattern_is_case_sensitive() {
    let mut matcher = FuzzyMatcher::new();
    let paths = vec!["readme.md".to_string(), "README.md".to_string()];
    let results = matcher.match_paths(paths, "README", 10);
    assert_eq!(results, vec!["README.md"]);
}

#[test]
fn zero_limit_gives_nothing() {
    let mut matcher = FuzzyMatcher::new();
    let paths = vec!["main.rs".to_string()];
    assert!(matcher.match_paths(paths.clone(), "main", 0).is_empty());
    assert!(matcher.match_paths(paths, "", 0).is_empty());
}

#[test]
fn no_candidates_gives_nothing() {
    let mut matcher = FuzzyMatcher::new();
    assert!(matcher.match_paths(Vec::new(), "main", 10).is_empty());
}

#[test]
fn ranking_orders_by_descending_score() {
    let paths = vec!["a".to_string(), "b".to_string(), "c".to_string(), "d".to_string()];
    let scores = vec![Some(10), None, Some(30), Some(20)];
    assert_eq!(rank_scored(&paths, &scores, 10), vec!["c", "d", "a"]);
}

#[test]
fn ranking_keeps_input_order_on_ties() {
    let paths = vec!["a".to_string(), "b".to_string(), "c".to_string(), "d".to_string()];
    let scores = vec![Some(5), Some(7), Some(5), Some(7)];
    assert_eq!(rank_scored(&paths, &scores, 10), vec!["b", "d", "a", "c"]);
}

#[test]
fn ranking_truncates_to_limit() {
    let paths = vec!["a".to_string(), "b".to_string(), "c".to_string()];
    let scores = vec![Some(1), Some(3), Some(2)];
    assert_eq!(rank_scored(&paths, &scores, 2), vec!["b", "c"]);
}

#[test]
fn ranking_drops_unmatched() {
    let paths = vec!["a".to_string(), "b".to_string()];
    let scores = vec![None, None];
    assert!(rank_scored(&paths, &scores, 5).is_empty());
}

#[test]
fn ranking_keeps_zero_scores() {
    let paths = vec!["a".to_string(), "b".to_string()];
    let scores = vec![Some(0), None];
    assert_eq!(rank_scored(&paths, &scores, 5), vec!["a"]);
}

#[test]
fn pattern_with_space_is_one_needle() {
    let mut matcher = FuzzyMatcher::new();
    let paths = vec!["foobar.rs".to_string(), "foo bar.rs".to_string()];
    assert_eq!(matcher.match_paths(paths, "foo bar", 10), vec!["foo bar.rs"]);
}

#[test]
fn operator_characters_match_literally() {
    let mut matcher = FuzzyMatcher::new();
    let paths = vec!["ax".to_string(), "a!x".to_string()];
    assert_eq!(matcher.match_paths(paths, "!x", 10), vec!["a!x"]);
}
