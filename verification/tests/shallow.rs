use git_sleipnir::shallow::{
    parse_shallow_lines, render_lines, shallow_file_contents, sort_strings, update_shallow_set,
    ShallowInfo,
};

#[test]
fn parse_trims_and_skips_blank_lines() {
    let parsed = parse_shallow_lines("  abc  \n\n def\nabc\n   \n");
    let mut names = parsed.clone();
    names.sort();
    assert_eq!(names, vec!["abc".to_string(), "def".to_string()]);
}

#[test]
fn missing_file_reads_as_empty_set() {
    assert!(parse_shallow_lines("").is_empty());
}

#[test]
fn update_inserts_and_removes() {
    let current = parse_shallow_lines("aaa\nbbb\n");
    let deltas = vec![
        ShallowInfo::Shallow("ccc".to_string()),
        ShallowInfo::NotShallow("aaa".to_string()),
        ShallowInfo::NotShallow("zzz".to_string()),
    ];
    let mut updated = update_shallow_set(current, &deltas);
    updated.sort();
    assert_eq!(updated, vec!["bbb".to_string(), "ccc".to_string()]);
}

#[test]
fn rendered_file_is_sorted_with_trailing_newlines() {
    let set = parse_shallow_lines("bbb\naaa\nccc\n");
    let sorted = sort_strings(set);
    assert_eq!(render_lines(&sorted), "aaa\nbbb\nccc\n");
}

#[test]
fn update_twice_writes_the_same_file() {
    let content = "bbb\naaa\n";
    let deltas = vec![
        ShallowInfo::Shallow("ccc".to_string()),
        ShallowInfo::NotShallow("aaa".to_string()),
        ShallowInfo::Shallow("ddd".to_string()),
        ShallowInfo::NotShallow("ddd".to_string()),
    ];
    let once = shallow_file_contents(content, &deltas);
    let twice = shallow_file_contents(once.as_str(), &deltas);
    assert_eq!(once, twice);
    assert_eq!(once, "bbb\nccc\n");
}

#[test]
fn last_delta_for_a_sha_wins() {
    let deltas = vec![
        ShallowInfo::Shallow("abc".to_string()),
        ShallowInfo::NotShallow("abc".to_string()),
    ];
    assert_eq!(shallow_file_contents("", &deltas), "");

    let deltas2 = vec![
        ShallowInfo::NotShallow("abc".to_string()),
        ShallowInfo::Shallow("abc".to_string()),
    ];
    assert_eq!(shallow_file_contents("", &deltas2), "abc\n");
}
