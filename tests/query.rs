use path_complete::query::parse_query;

#[test]
fn test_empty_query() {
    let parsed = parse_query("", "/home/user/project");
    assert_eq!(parsed.pattern, "");
    assert_eq!(parsed.output_prefix, "");
    assert!(parsed.is_empty);
    assert_eq!(parsed.search_base, "/home/user/project");
}

#[test]
fn test_simple_query() {
    let parsed = parse_query("main.rs", "/home/user/project");
    assert_eq!(parsed.pattern, "main.rs");
    assert_eq!(parsed.output_prefix, "");
    assert!(!parsed.is_empty);
}

#[test]
fn input_test_path_query() {
    let parsed = parse_query("src/main", "/home/user/project");
    assert_eq!(parsed.pattern, "src/main");
    assert_eq!(parsed.output_prefix, "");
}

#[test]
fn test_single_parent_prefix() {
    let parsed = parse_query("../foo", "/home/user/project");
    assert_eq!(parsed.pattern, "foo");
    assert_eq!(parsed.output_prefix, "../");
    assert_eq!(parsed.search_base, "/home/user");
}

#[test]
fn input_test_double_parent_prefix() {
    let parsed = parse_query("../../bar", "/home/user/project");
    assert_eq!(parsed.pattern, "bar");
    assert_eq!(parsed.output_prefix, "../../");
    assert_eq!(parsed.search_base, "/home");
}

#[test]
fn test_parent_prefix_with_path() {
    let parsed = parse_query("../src/main", "/home/user/project");
    assert_eq!(parsed.pattern, "src/main");
    assert_eq!(parsed.output_prefix, "../");
}

#[test]
fn test_current_dir_prefix_stripped() {
    let parsed = parse_query("./src/main", "/home/user/project");
    assert_eq!(parsed.pattern, "src/main");
    assert_eq!(parsed.output_prefix, "");
}

#[test]
fn test_only_parent_ref() {
    let parsed = parse_query("..", "/home/user/project");
    assert_eq!(parsed.pattern, "");
    assert_eq!(parsed.output_prefix, "../");
    assert!(parsed.is_empty);
    assert_eq!(parsed.search_base, "/home/user");
}

#[test]
fn test_only_parent_ref_with_slash() {
    let parsed = parse_query("../", "/home/user/project");
    assert_eq!(parsed.pattern, "");
    assert_eq!(parsed.output_prefix, "../");
    assert!(parsed.is_empty);
}

#[test]
fn test_whitespace_trimmed() {
    let parsed = parse_query("  main.rs  ", "/home/user/project");
    assert_eq!(parsed.pattern, "main.rs");
}

#[test]
fn blank_query_is_empty() {
    let parsed = parse_query("   ", "/home/user/project");
    assert_eq!(parsed.pattern, "");
    assert!(parsed.is_empty);
    assert_eq!(parsed.output_prefix, "");
    assert_eq!(parsed.search_base, "/home/user/project");
}

#[test]
fn unicode_white_space_is_trimmed() {
    let parsed = parse_query("\u{3000}\tsrc\u{a0}\n", "/p");
    assert_eq!(parsed.pattern, "src");
}

#[test]
fn parents_above_root_stay_at_root() {
    let parsed = parse_query("../../../../x", "/home");
    assert_eq!(parsed.pattern, "x");
    assert_eq!(parsed.output_prefix, "../../../../");
    assert_eq!(parsed.search_base, "/");
}

#[test]
fn trailing_bare_parent_counts_as_a_step() {
    let parsed = parse_query("../..", "/a/b/c");
    assert_eq!(parsed.pattern, "");
    assert_eq!(parsed.output_prefix, "../../");
    assert_eq!(parsed.search_base, "/a");
    assert!(parsed.is_empty);
}

#[test]
fn current_dir_after_parents_is_stripped() {
    let parsed = parse_query(".././lib", "/a/b");
    assert_eq!(parsed.pattern, "lib");
    assert_eq!(parsed.output_prefix, "../");
    assert_eq!(parsed.search_base, "/a");
}

#[test]
fn only_one_current_dir_is_stripped_after_parents() {
    let parsed = parse_query("../././x", "/a/b");
    assert_eq!(parsed.pattern, "./x");
    assert_eq!(parsed.output_prefix, "../");
}

#[test]
fn current_dir_before_parents_is_stripped() {
    let parsed = parse_query("./../x", "/a/b");
    assert_eq!(parsed.pattern, "x");
    assert_eq!(parsed.output_prefix, "../");
    assert_eq!(parsed.search_base, "/a");
}

#[test]
fn dots_inside_pattern_are_kept() {
    let parsed = parse_query("src/../main", "/a");
    assert_eq!(parsed.pattern, "src/../main");
    assert_eq!(parsed.output_prefix, "");
}

#[test]
fn relative_cwd_steps_to_empty_parent() {
    let parsed = parse_query("../x", "proj");
    assert_eq!(parsed.search_base, "");
    assert_eq!(parsed.output_prefix, "../");
}

#[test]
fn zero_width_space_is_not_trimmed() {
    let parsed = parse_query("\u{200b}x ", "/p");
    assert_eq!(parsed.pattern, "\u{200b}x");
}

#[test]
fn root_has_no_parent() {
    let parsed = parse_query("..", "/");
    assert_eq!(parsed.search_base, "/");
    assert_eq!(parsed.output_prefix, "../");
}
