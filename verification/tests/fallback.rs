use git_sleipnir::fallback::{resolve, BranchFallback};
use git_sleipnir::clone_logic::find_branch;

#[test]
fn only_delitimter_is_quoted() {
    let input = r"%abc%this\is\100\%%";
    let fallback = BranchFallback::parse(input).expect("should parse");

    assert_eq!(fallback.pattern, "abc");
    assert_eq!(fallback.replacement, r"this\is\100%");
}

#[test]
fn parses_basic_slash_delimited() {
    let input = r"/foo-(\d+)/bar-$1/";
    let fallback = BranchFallback::parse(input).expect("should parse");

    assert_eq!(fallback.pattern, r"foo-(\d+)");
    assert_eq!(fallback.replacement, "bar-$1");
}

#[test]
fn parses_percent_delimited() {
    let input = "%abc%d123%";
    let fallback = BranchFallback::parse(input).expect("should parse");

    assert_eq!(fallback.pattern, "abc");
    assert_eq!(fallback.replacement, "d123");
}

#[test]
fn parses_pipe_delimited_with_escape() {
    let input = r"|a\|b|repl\|acement|";
    let fallback = BranchFallback::parse(input).expect("should parse");

    assert_eq!(fallback.pattern, "a|b");
    assert_eq!(fallback.replacement, "repl|acement");
}

#[test]
fn error_on_missing_replacement() {
    let err = BranchFallback::parse("/abc/").unwrap_err();
    assert!(
        err.contains("Expected format"),
        "Got unexpected error: {}",
        err
    );
}

#[test]
fn error_on_extra() {
    let err = BranchFallback::parse("%abc%d123%extra").unwrap_err();
    assert!(
        err.contains("Expected format"),
        "Got unexpected error: {}",
        err
    );
}

#[test]
fn error_on_unclosed_escape() {
    let err = BranchFallback::parse("/abc\\/repl\\").unwrap_err();
    assert_eq!(err, "Trailing escape character");
}

#[test]
fn error_on_invalid_regex() {
    let err = BranchFallback::parse("/(unclosed-group/repl/").unwrap_err();
    assert!(
        err.contains("Invalid regex"),
        "Expected regex error, got: {}",
        err
    );
}

#[test]
fn error_on_empty_input() {
    let err = BranchFallback::parse("").unwrap_err();
    assert_eq!(err, "Empty fallback string");
}

#[test]
fn resolver_match_after_rewrite() {
    let rules = vec![BranchFallback::parse("/^feature-//").unwrap()];
    let names = vec!["foo".to_string()];
    let r = resolve(&"feature-foo".to_string(), &rules, &names);
    assert_eq!(r, Some(0));
}

#[test]
fn resolver_refuses_growing_rewrite() {
    // The first rule's rewrite is longer than the target, so it is never
    // enqueued, and the shortening rule alone cannot reach the available
    // branch.
    let rules = vec![
        BranchFallback::parse(r"/release-(\d+)/release-$1-rc/").unwrap(),
        BranchFallback::parse("/-rc$//").unwrap(),
    ];
    let names = vec!["release-2-rc".to_string()];
    let r = resolve(&"release-3".to_string(), &rules, &names);
    assert_eq!(r, None);
}

#[test]
fn resolver_direct_hit_without_rules() {
    let rules: Vec<BranchFallback> = Vec::new();
    let names = vec!["main".to_string(), "dev".to_string()];
    let r = resolve(&"dev".to_string(), &rules, &names);
    assert_eq!(r, Some(1));
}

#[test]
fn find_branch_falls_back_to_default() {
    let rule_strings = vec![
        r"/release-(\d+)/release-$1-rc/".to_string(),
        "/-rc$//".to_string(),
    ];
    let names = vec!["release-2-rc".to_string()];
    let r = find_branch(
        &"release-3".to_string(),
        &rule_strings,
        &Some("release-2-rc".to_string()),
        &names,
    );
    assert_eq!(r, Ok(0));
}

#[test]
fn find_branch_error_without_default() {
    let r = find_branch(
        &"release-3".to_string(),
        &Vec::new(),
        &None,
        &vec!["main".to_string()],
    );
    assert_eq!(r, Err("No suitable branch found".to_string()));
}

#[test]
fn find_branch_reports_rule_error() {
    let r = find_branch(
        &"main".to_string(),
        &vec!["".to_string()],
        &None,
        &vec!["main".to_string()],
    );
    assert_eq!(r, Err("Empty fallback string".to_string()));
}
