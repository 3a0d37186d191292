use rust_git::error::GitError;
use rust_git::ignore::{Ignore, IgnoreRule};

#[test]
fn test_ignore_star_pattern() {
    let lines = vec![
        "test.txt".to_string(),
        "#comment to skip".to_string(),
        "*.iml".to_string()
    ];
    let ignore = Ignore::parse_file(lines);
    let result_3 = ignore.check_ignore("now/other.iml".to_string());
    let expected_3 = Ok(Some(true));
    assert_eq!(result_3, expected_3);
}

#[test]
fn parse_file_skips_comments_and_empty_lines() {
    let lines = vec![
        "test.txt".to_string(),
        "#comment to skip".to_string(),
        "   ".to_string(),
        "!negative.pattern".to_string(),
        "\\#literal".to_string(),
    ];
    let expected = Ignore::new(vec![
        IgnoreRule::Normal("test.txt".to_string()),
        IgnoreRule::Negate("negative.pattern".to_string()),
        IgnoreRule::Literal("#literal".to_string()),
    ]);
    assert_eq!(Ignore::parse_file(lines), expected);
}

#[test]
fn rules_are_read_from_trimmed_lines() {
    assert_eq!(
        IgnoreRule::from_string("#this is a comment".to_string()),
        IgnoreRule::Comment("this is a comment".to_string())
    );
    assert_eq!(
        IgnoreRule::from_string("  \t*.iml \n".to_string()),
        IgnoreRule::Normal("*.iml".to_string())
    );
    assert_eq!(
        IgnoreRule::from_string(" !keep ".to_string()),
        IgnoreRule::Negate("keep".to_string())
    );
    assert_eq!(IgnoreRule::from_string("\\!x".to_string()), IgnoreRule::Literal("!x".to_string()));
    assert_eq!(IgnoreRule::from_string("".to_string()), IgnoreRule::Empty);
    assert_eq!(IgnoreRule::from_string(" \u{a0}\u{3000} ".to_string()), IgnoreRule::Empty);
    assert_eq!(IgnoreRule::from_string("#".to_string()), IgnoreRule::Comment("".to_string()));
    assert_eq!(IgnoreRule::from_string("é#".to_string()), IgnoreRule::Normal("é#".to_string()));
}

#[test]
fn path_that_no_pattern_matches_has_no_verdict() {
    let lines = vec![
        "test.txt".to_string(),
        "#comment to skip".to_string(),
        "*.iml".to_string()
    ];
    let ignore = Ignore::parse_file(lines);
    assert_eq!(ignore.check_ignore("my/file/name.txt".to_string()), Ok(None));
    assert_eq!(ignore.check_ignore("test.txt".to_string()), Ok(Some(false)));
    assert_eq!(ignore.match_rules("test.txt"), Some(vec![true, false]));
}

#[test]
fn verdict_is_what_the_last_pattern_says() {
    assert_eq!(Ignore::verdict(&vec![]), None);
    assert_eq!(Ignore::verdict(&vec![false, false]), None);
    assert_eq!(Ignore::verdict(&vec![false, true]), Some(true));
    assert_eq!(Ignore::verdict(&vec![true, false]), Some(false));
    assert_eq!(Ignore::verdict(&vec![true]), Some(true));
}

#[test]
fn only_patterns_are_matched() {
    let mut ignore = Ignore::new(vec![]);
    ignore.add_rule(IgnoreRule::Negate("*".to_string()));
    ignore.add_rule(IgnoreRule::Literal("*".to_string()));
    ignore.add_rule(IgnoreRule::Comment("*".to_string()));
    ignore.add_rule(IgnoreRule::Empty);
    assert_eq!(ignore.match_rules("anything"), Some(vec![]));
    assert_eq!(ignore.check_ignore("anything".to_string()), Ok(None));
    ignore.add_rule(IgnoreRule::Normal("any*".to_string()));
    assert_eq!(ignore.rules.len(), 5);
    assert_eq!(ignore.check_ignore("anything".to_string()), Ok(Some(true)));
}

#[test]
fn invalid_pattern_is_malformed() {
    let ignore = Ignore::new(vec![IgnoreRule::Normal("a/**b".to_string())]);
    assert_eq!(ignore.match_rules("a/b"), None);
    assert_eq!(ignore.check_ignore("a/b".to_string()), Err(GitError::Format));
}

#[test]
fn rules_are_told_apart_by_their_first_character() {
    assert_eq!(IgnoreRule::from_trimmed(""), IgnoreRule::Empty);
    assert_eq!(IgnoreRule::from_trimmed("#c"), IgnoreRule::Comment("c".to_string()));
    assert_eq!(IgnoreRule::from_trimmed("!n"), IgnoreRule::Negate("n".to_string()));
    assert_eq!(IgnoreRule::from_trimmed("\\l"), IgnoreRule::Literal("l".to_string()));
    assert_eq!(IgnoreRule::from_trimmed(" x "), IgnoreRule::Normal(" x ".to_string()));
    assert_eq!(IgnoreRule::from_trimmed(" #x"), IgnoreRule::Normal(" #x".to_string()));
}

#[test]
fn answers_are_gathered_where_every_pattern_gave_one() {
    assert_eq!(Ignore::gather(&vec![]), Some(vec![]));
    assert_eq!(Ignore::gather(&vec![Some(true), Some(false)]), Some(vec![true, false]));
    assert_eq!(Ignore::gather(&vec![Some(true), None, Some(false)]), None);
    assert_eq!(Ignore::gather(&vec![None]), None);
}

#[test]
fn one_invalid_pattern_leaves_no_answer() {
    let ignore = Ignore::new(vec![
        IgnoreRule::Normal("*.txt".to_string()),
        IgnoreRule::Normal("a/**b".to_string()),
        IgnoreRule::Normal("*".to_string()),
    ]);
    assert_eq!(ignore.match_rules("a.txt"), None);
    assert_eq!(ignore.check_ignore("a.txt".to_string()), Err(GitError::Format));
    let valid = Ignore::new(vec![
        IgnoreRule::Normal("*.txt".to_string()),
        IgnoreRule::Comment("a/**b".to_string()),
        IgnoreRule::Normal("b*".to_string()),
    ]);
    assert_eq!(valid.match_rules("a.txt"), Some(vec![true, false]));
    assert_eq!(valid.check_ignore("a.txt".to_string()), Ok(Some(false)));
}
