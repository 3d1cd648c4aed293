use path_complete::matcher::FuzzyMatcher;
use path_complete::pipeline::{complete, prefixed, Input, RESULT_LIMIT};
use path_complete::query::parse_query;

#[test]
fn result_limit_is_fifty() {
    assert_eq!(RESULT_LIMIT, 50);
}

#[test]
fn prefix_goes_before_each_path() {
    let paths = vec!["Cargo.toml".to_string(), "src".to_string()];
    assert_eq!(prefixed("../", &paths), vec!["../Cargo.toml", "../src"]);
    assert_eq!(prefixed("", &paths), vec!["Cargo.toml", "src"]);
}

#[test]
fn parent_query_output_line() {
    let parsed = parse_query("../Cargo", "/work/proj/src");
    let candidates = vec![
        "Cargo.toml".to_string(),
        "src".to_string(),
        "src/main.rs".to_string(),
        "README.md".to_string(),
    ];
    let mut matcher = FuzzyMatcher::new();
    let lines = complete(&mut matcher, &parsed, candidates);
    assert_eq!(lines, vec!["../Cargo.toml"]);
    assert_eq!(parsed.search_base, "/work/proj");
}

#[test]
fn main_query_finds_main_file() {
    let parsed = parse_query("main", "/work/proj");
    let candidates = vec![
        "src".to_string(),
        "src/main.rs".to_string(),
        "README.md".to_string(),
        "tests".to_string(),
    ];
    let mut matcher = FuzzyMatcher::new();
    let lines = complete(&mut matcher, &parsed, candidates);
    assert!(lines.iter().any(|l| l.ends_with("main.rs")));
}

#[test]
fn complete_caps_at_result_limit() {
    let parsed = parse_query("file", "/w");
    let candidates: Vec<String> = (0..100).map(|i| format!("file{}.txt", i)).collect();
    let mut matcher = FuzzyMatcher::new();
    assert_eq!(complete(&mut matcher, &parsed, candidates).len(), 50);
}

#[test]
fn empty_query_lists_in_walk_order() {
    let parsed = parse_query("", "/w");
    let candidates = vec!["b".to_string(), "a".to_string()];
    let mut matcher = FuzzyMatcher::new();
    assert_eq!(complete(&mut matcher, &parsed, candidates), vec!["b", "a"]);
}

#[test]
fn absent_query_reads_as_empty() {
    let input = Input { query: None, cwd: None };
    assert_eq!(input.query_text(), "");
    let input = Input { query: Some("src/main".to_string()), cwd: Some("/home/user".to_string()) };
    assert_eq!(input.query_text(), "src/main");
    assert_eq!(input.cwd, Some("/home/user".to_string()));
}
