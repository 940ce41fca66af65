use simple_ast::regex::substring;
use simple_ast::{Captures, Pattern};

#[test]
fn pattern_compiles_and_reports_group_spans() {
    let pattern = Pattern::new(r"^(a+)(b)?(c)").unwrap();
    let found = pattern.captures("aac!").unwrap();
    assert_eq!(found.pos(0), Some((0, 3)));
    assert_eq!(found.pos(1), Some((0, 2)));
    assert_eq!(found.pos(2), None);
    assert_eq!(found.pos(3), Some((2, 3)));
    assert_eq!(found.pos(4), None);
    assert_eq!(found.at(0), Some("aac"));
    assert_eq!(found.at(1), Some("aa"));
    assert_eq!(found.at(2), None);
    assert_eq!(found.at(3), Some("c"));
    assert_eq!(found.at(9), None);
}

#[test]
fn pattern_without_match_gives_none() {
    let pattern = Pattern::new(r"^b").unwrap();
    assert!(pattern.captures("abc").is_none());
    assert!(pattern.captures("").is_none());
}

#[test]
fn unanchored_pattern_finds_the_leftmost_match() {
    let pattern = Pattern::new(r"b+").unwrap();
    let found = pattern.captures("abbc").unwrap();
    assert_eq!(found.pos(0), Some((1, 3)));
    assert_eq!(found.at(0), Some("bb"));
}

#[test]
fn invalid_pattern_is_an_error() {
    assert!(Pattern::new("(").is_err());
    assert!(Pattern::new("a{2,1}").is_err());
    let error = Pattern::new("[").err().unwrap();
    assert_eq!(error, error.clone());
}

#[test]
fn pattern_matches_whole_characters() {
    let pattern = Pattern::new(r"^.(.)").unwrap();
    let found = pattern.captures("éüx").unwrap();
    assert_eq!(found.pos(0), Some((0, 4)));
    assert_eq!(found.pos(1), Some((2, 4)));
    assert_eq!(found.at(1), Some("ü"));
}

#[test]
fn empty_match_is_reported_as_it_is() {
    let pattern = Pattern::new(r"^x*").unwrap();
    let found = pattern.captures("abc").unwrap();
    assert_eq!(found.pos(0), Some((0, 0)));
    assert_eq!(found.at(0), Some(""));
}

#[test]
fn captures_are_kept_only_if_they_describe_a_match() {
    assert!(Captures::from_groups("abc", vec![]).is_none());
    assert!(Captures::from_groups("abc", vec![None]).is_none());
    assert!(Captures::from_groups("abc", vec![Some((2, 1))]).is_none());
    assert!(Captures::from_groups("abc", vec![Some((0, 4))]).is_none());
    assert!(Captures::from_groups("abc", vec![Some((0, 3)), Some((1, 9))]).is_none());
    assert!(Captures::from_groups("é", vec![Some((0, 1))]).is_none());
    assert!(Captures::from_groups("é", vec![Some((1, 2))]).is_none());
    let kept = Captures::from_groups("aéb", vec![Some((0, 4)), None, Some((1, 3))]).unwrap();
    assert_eq!(kept.pos(0), Some((0, 4)));
    assert_eq!(kept.pos(1), None);
    assert_eq!(kept.at(2), Some("é"));
    assert_eq!(kept.pos(3), None);
}

#[test]
fn substring_cuts_whole_characters_only() {
    assert_eq!(substring("hello", 1, 3), Some("el"));
    assert_eq!(substring("hello", 0, 5), Some("hello"));
    assert_eq!(substring("hello", 2, 2), Some(""));
    assert_eq!(substring("hello", 5, 5), Some(""));
    assert_eq!(substring("hello", 3, 2), None);
    assert_eq!(substring("hello", 2, 6), None);
    assert_eq!(substring("aéb", 1, 3), Some("é"));
    assert_eq!(substring("aéb", 1, 2), None);
    assert_eq!(substring("aéb", 2, 4), None);
    assert_eq!(substring("", 0, 0), Some(""));
}
