use pattern_matcher::matcher::Matcher;
use pattern_matcher::token::MatcherToken;

#[test]
fn literal_step_consumes_its_text() {
    let token = MatcherToken::RawText("ab");
    let mut matched = Vec::new();
    let mut string = "abc";
    assert!(Matcher::match_raw_text("ab", &token, &mut matched, &mut string));
    assert_eq!(matched, vec![(&token, "ab")]);
    assert_eq!(string, "c");
}

#[test]
fn literal_step_that_fails_changes_nothing() {
    let token = MatcherToken::RawText("ab");
    let other = MatcherToken::WildCard;
    let mut matched = vec![(&other, "x")];
    let mut string = "acb";
    assert!(!Matcher::match_raw_text("ab", &token, &mut matched, &mut string));
    assert_eq!(matched, vec![(&other, "x")]);
    assert_eq!(string, "acb");
    let mut string = "a";
    assert!(!Matcher::match_raw_text("ab", &token, &mut matched, &mut string));
    assert_eq!(string, "a");
}

#[test]
fn empty_literal_step_consumes_nothing() {
    let token = MatcherToken::RawText("");
    let mut matched = Vec::new();
    let mut string = "abc";
    assert!(Matcher::match_raw_text("", &token, &mut matched, &mut string));
    assert_eq!(matched, vec![(&token, "")]);
    assert_eq!(string, "abc");
}

#[test]
fn alternation_step_takes_the_first_option_that_fits() {
    let options = vec!["x", "ab", "a", "abc"];
    let token = MatcherToken::OneOfText(vec!["x", "ab", "a", "abc"]);
    let mut matched = Vec::new();
    let mut string = "abcd";
    assert!(Matcher::match_one_of_text(
        &options,
        &token,
        &mut matched,
        &mut string
    ));
    assert_eq!(matched, vec![(&token, "ab")]);
    assert_eq!(string, "cd");
}

#[test]
fn alternation_step_that_fails_changes_nothing() {
    let options = vec!["x", "y"];
    let token = MatcherToken::OneOfText(vec!["x", "y"]);
    let mut matched = Vec::new();
    let mut string = "abcd";
    assert!(!Matcher::match_one_of_text(
        &options,
        &token,
        &mut matched,
        &mut string
    ));
    assert_eq!(matched, vec![]);
    assert_eq!(string, "abcd");
}

#[test]
fn alternation_lists_every_option_that_fits_in_order() {
    let options = vec!["ab", "x", "a", "abcd", "abc", "b"];
    let token = MatcherToken::OneOfText(vec!["ab", "x", "a", "abcd", "abc", "b"]);
    let found = Matcher::match_one_of_text_exhaustive(&options, &token, 7, "abc");
    assert_eq!(
        found,
        vec![(7, &token, "ab"), (7, &token, "a"), (7, &token, "abc")]
    );
    let found = Matcher::match_one_of_text_exhaustive(&options, &token, 0, "zzz");
    assert_eq!(found, vec![]);
}

#[test]
fn wildcard_step_consumes_one_character() {
    let token = MatcherToken::WildCard;
    let mut matched = Vec::new();
    let mut string = "\u{1f4aa}\u{e9}z";
    assert!(Matcher::match_wild_card(&token, &mut matched, &mut string));
    assert_eq!(string, "\u{e9}z");
    assert!(Matcher::match_wild_card(&token, &mut matched, &mut string));
    assert_eq!(string, "z");
    assert!(Matcher::match_wild_card(&token, &mut matched, &mut string));
    assert_eq!(string, "");
    assert_eq!(
        matched,
        vec![(&token, "\u{1f4aa}"), (&token, "\u{e9}"), (&token, "z")]
    );
}

#[test]
fn wildcard_step_on_nothing_changes_nothing() {
    let token = MatcherToken::WildCard;
    let mut matched = Vec::new();
    let mut string = "";
    assert!(!Matcher::match_wild_card(&token, &mut matched, &mut string));
    assert_eq!(matched, vec![]);
    assert_eq!(string, "");
}
