use pattern_matcher::matcher::Matcher;
use pattern_matcher::token::MatcherToken;

#[test]
fn greedy_stops_where_the_alternation_fails() {
    let mut matcher = Matcher::new("abc(d|e|f).").unwrap();
    let result = matcher.match_string("abcge");
    assert_eq!(result, vec![(&MatcherToken::RawText("abc"), "abc")]);
}

#[test]
fn greedy_gets_through_all_tokens() {
    let mut matcher = Matcher::new("abc(d|e|f).").unwrap();
    let result = matcher.match_string("abcde");
    assert_eq!(
        result,
        vec![
            (&MatcherToken::RawText("abc"), "abc"),
            (&MatcherToken::OneOfText(vec!["d", "e", "f"]), "d"),
            (&MatcherToken::WildCard, "e")
        ]
    );
}

#[test]
fn greedy_result_is_a_run_that_ends_at_the_first_failure() {
    // every step is what its token takes where the steps before left off,
    // and the token after the last step does not fit what is left
    let mut matcher = Matcher::new("ab.(cd|c)e.").unwrap();
    let result = matcher.match_string("abXcdf");
    assert_eq!(
        result,
        vec![
            (&MatcherToken::RawText("ab"), "ab"),
            (&MatcherToken::WildCard, "X"),
            (&MatcherToken::OneOfText(vec!["cd", "c"]), "cd")
        ]
    );
    let tokens = matcher.tokens();
    assert_eq!(tokens.len(), 5);
    assert_eq!(tokens[3], MatcherToken::RawText("e"));
    assert!(!"f".starts_with("e"));
}

#[test]
fn greedy_takes_the_first_option_that_fits() {
    let mut matcher = Matcher::new("(ab|a|abc)").unwrap();
    assert_eq!(
        matcher.match_string("abcd"),
        vec![(&MatcherToken::OneOfText(vec!["ab", "a", "abc"]), "ab")]
    );
    let mut matcher = Matcher::new("(x|abc|ab)").unwrap();
    assert_eq!(
        matcher.match_string("abcd"),
        vec![(&MatcherToken::OneOfText(vec!["x", "abc", "ab"]), "abc")]
    );
}

#[test]
fn greedy_on_nothing_that_fits_is_empty() {
    let mut matcher = Matcher::new("abc").unwrap();
    assert_eq!(matcher.match_string("abd"), vec![]);
    assert_eq!(matcher.match_string(""), vec![]);
    assert_eq!(matcher.most_tokens_matched(), 0);
}

#[test]
fn empty_pattern_matches_its_empty_literal() {
    let mut matcher = Matcher::new("").unwrap();
    assert_eq!(
        matcher.match_string("anything"),
        vec![(&MatcherToken::RawText(""), "")]
    );
    assert_eq!(
        matcher.match_string_exhaustive(""),
        vec![(&MatcherToken::RawText(""), "")]
    );
    assert_eq!(matcher.most_tokens_matched(), 1);
}

#[test]
fn wildcard_takes_one_multi_byte_character_whole() {
    let mut matcher = Matcher::new("abc(d|e|f).").unwrap();
    let result = matcher.match_string("abcd\u{1f4aa}");
    assert_eq!(
        result,
        vec![
            (&MatcherToken::RawText("abc"), "abc"),
            (&MatcherToken::OneOfText(vec!["d", "e", "f"]), "d"),
            (&MatcherToken::WildCard, "\u{1f4aa}")
        ]
    );
    assert_eq!(result[2].1.len(), 4);
    assert_eq!(result[2].1.chars().count(), 1);
}

#[test]
fn wildcards_take_characters_of_every_width() {
    let mut matcher = Matcher::new("....x").unwrap();
    let result = matcher.match_string("a\u{e9}\u{4e16}\u{1f4aa}x");
    assert_eq!(
        result,
        vec![
            (&MatcherToken::WildCard, "a"),
            (&MatcherToken::WildCard, "\u{e9}"),
            (&MatcherToken::WildCard, "\u{4e16}"),
            (&MatcherToken::WildCard, "\u{1f4aa}"),
            (&MatcherToken::RawText("x"), "x")
        ]
    );
}

#[test]
fn literal_does_not_match_a_character_with_the_same_first_byte() {
    let mut matcher = Matcher::new("\u{e9}x").unwrap();
    assert_eq!(matcher.match_string("\u{e8}x"), vec![]);
    assert_eq!(
        matcher.match_string("\u{e9}x"),
        vec![(&MatcherToken::RawText("\u{e9}x"), "\u{e9}x")]
    );
}

#[test]
fn wildcard_needs_a_character() {
    let mut matcher = Matcher::new("a.").unwrap();
    assert_eq!(
        matcher.match_string("a"),
        vec![(&MatcherToken::RawText("a"), "a")]
    );
}

#[test]
fn multi_byte_literals_and_options_are_matched_whole() {
    let mut matcher = Matcher::new("h\u{e9}(\u{fc}b|\u{fc}).").unwrap();
    let result = matcher.match_string("h\u{e9}\u{fc}\u{4e16}!");
    assert_eq!(
        result,
        vec![
            (&MatcherToken::RawText("h\u{e9}"), "h\u{e9}"),
            (
                &MatcherToken::OneOfText(vec!["\u{fc}b", "\u{fc}"]),
                "\u{fc}"
            ),
            (&MatcherToken::WildCard, "\u{4e16}")
        ]
    );
}

#[test]
fn counter_is_the_greatest_length_seen_so_far() {
    let mut matcher = Matcher::new("a(b|c).d").unwrap();
    assert_eq!(matcher.most_tokens_matched(), 0);
    assert_eq!(matcher.match_string("x").len(), 0);
    assert_eq!(matcher.most_tokens_matched(), 0);
    assert_eq!(matcher.match_string("ab").len(), 2);
    assert_eq!(matcher.most_tokens_matched(), 2);
    assert_eq!(matcher.match_string("a").len(), 1);
    assert_eq!(matcher.most_tokens_matched(), 2);
    assert_eq!(matcher.match_string_exhaustive("acxd").len(), 4);
    assert_eq!(matcher.most_tokens_matched(), 4);
    assert_eq!(matcher.match_string_exhaustive("acx").len(), 3);
    assert_eq!(matcher.most_tokens_matched(), 4);
    assert_eq!(matcher.match_string("").len(), 0);
    assert_eq!(matcher.most_tokens_matched(), 4);
}

#[test]
fn matching_twice_gives_the_same_steps() {
    let mut matcher = Matcher::new("(aba|abac).(aba|abac).").unwrap();
    let first: Vec<(MatcherToken, String)> = matcher
        .match_string("abacabacd")
        .into_iter()
        .map(|(token, text)| (copy_of(token), text.to_string()))
        .collect();
    let second: Vec<(MatcherToken, String)> = matcher
        .match_string("abacabacd")
        .into_iter()
        .map(|(token, text)| (copy_of(token), text.to_string()))
        .collect();
    assert_eq!(first, second);
    assert_eq!(first.len(), 4);

    let first: Vec<(MatcherToken, String)> = matcher
        .match_string_exhaustive("abacabacd")
        .into_iter()
        .map(|(token, text)| (copy_of(token), text.to_string()))
        .collect();
    let second: Vec<(MatcherToken, String)> = matcher
        .match_string_exhaustive("abacabacd")
        .into_iter()
        .map(|(token, text)| (copy_of(token), text.to_string()))
        .collect();
    assert_eq!(first, second);
    assert_eq!(first[2].1, "abac");
}

fn copy_of<'a>(token: &MatcherToken<'a>) -> MatcherToken<'a> {
    match token {
        MatcherToken::RawText(text) => MatcherToken::RawText(text),
        MatcherToken::OneOfText(options) => MatcherToken::OneOfText(options.clone()),
        MatcherToken::WildCard => MatcherToken::WildCard,
    }
}

#[test]
fn steps_are_slices_of_the_candidate() {
    let candidate = "abcde".to_string();
    let mut matcher = Matcher::new("abc(d|e|f).").unwrap();
    let result = matcher.match_string(&candidate);
    let start = candidate.as_ptr() as usize;
    assert_eq!(result[0].1.as_ptr() as usize, start);
    assert_eq!(result[1].1.as_ptr() as usize, start + 3);
    assert_eq!(result[2].1.as_ptr() as usize, start + 4);
}
