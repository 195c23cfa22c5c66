use pattern_matcher::{Matcher, MatcherToken};

#[test]
fn simple_test() {
    let match_string = "abc(d|e|f).".to_string();
    let mut matcher = Matcher::new(&match_string).unwrap();

    assert_eq!(matcher.most_tokens_matched(), 0);

    {
        let candidate1 = "abcge".to_string();
        let result = matcher.match_string(&candidate1);
        assert_eq!(result, vec![(&MatcherToken::RawText("abc"), "abc"),]);
        assert_eq!(matcher.most_tokens_matched(), 1);
    }

    {
        let candidate1 = "abcde".to_string();
        let result = matcher.match_string(&candidate1);
        assert_eq!(
            result,
            vec![
                (&MatcherToken::RawText("abc"), "abc"),
                (&MatcherToken::OneOfText(vec!["d", "e", "f"]), "d"),
                (&MatcherToken::WildCard, "e")
            ]
        );
        assert_eq!(matcher.most_tokens_matched(), 3);
    }

    {
        let candidate1 = "abcdðŸ’ª".to_string();
        let result = matcher.match_string(&candidate1);
        assert_eq!(
            result,
            vec![
                (&MatcherToken::RawText("abc"), "abc"),
                (&MatcherToken::OneOfText(vec!["d", "e", "f"]), "d"),
                (&MatcherToken::WildCard, "ð")
            ]
        );
        assert_eq!(matcher.most_tokens_matched(), 3);
    }
}

#[test]
fn exhaustive_match() {
    let match_string = "(aba|abac).(aba|abac).";
    let mut matcher = Matcher::new(&match_string).unwrap();

    assert_eq!(matcher.most_tokens_matched(), 0);

    let candidate = "abacabacd";
    let result = matcher.match_string(candidate);
    assert_eq!(
        result,
        vec![
            (&MatcherToken::OneOfText(vec!["aba", "abac"]), "aba"),
            (&MatcherToken::WildCard, "c"),
            (&MatcherToken::OneOfText(vec!["aba", "abac"]), "aba"),
            (&MatcherToken::WildCard, "c")
        ]
    );
    assert_eq!(matcher.most_tokens_matched(), 4);
}

#[test]
fn broken_matcher() {
    let match_string = "abc(d|e|f.".to_string();
    let matcher = Matcher::new(&match_string);
    assert_eq!(matcher, None);
}

#[test]
fn simple_test_with_exhaustive_match() {
    let match_string = "abc(d|e|f).".to_string();
    let mut matcher = Matcher::new(&match_string).unwrap();

    assert_eq!(matcher.most_tokens_matched(), 0);

    {
        let candidate1 = "abcge".to_string();
        let result = matcher.match_string_exhaustive(&candidate1);
        assert_eq!(result, vec![(&MatcherToken::RawText("abc"), "abc"),]);
        assert_eq!(matcher.most_tokens_matched(), 1);
    }

    {
        let candidate1 = "abcde".to_string();
        let result = matcher.match_string_exhaustive(&candidate1);
        assert_eq!(
            result,
            vec![
                (&MatcherToken::RawText("abc"), "abc"),
                (&MatcherToken::OneOfText(vec!["d", "e", "f"]), "d"),
                (&MatcherToken::WildCard, "e")
            ]
        );
        assert_eq!(matcher.most_tokens_matched(), 3);
    }

    {
        let candidate1 = "abcdðŸ’ª".to_string();
        let result = matcher.match_string_exhaustive(&candidate1);
        assert_eq!(
            result,
            vec![
                (&MatcherToken::RawText("abc"), "abc"),
                (&MatcherToken::OneOfText(vec!["d", "e", "f"]), "d"),
                (&MatcherToken::WildCard, "ð")
            ]
        );
        assert_eq!(matcher.most_tokens_matched(), 3);
    }
}

#[test]
fn exhaustive_match_with_exhaustive_matcher() {
    let match_string = "(aba|abac).(aba|abac).";
    let mut matcher = Matcher::new(&match_string).unwrap();

    assert_eq!(matcher.most_tokens_matched(), 0);

    let candidate = "abacabacd";
    let result = matcher.match_string_exhaustive(candidate);
    assert_eq!(
        result,
        vec![
            (&MatcherToken::OneOfText(vec!["aba", "abac"]), "aba"),
            (&MatcherToken::WildCard, "c"),
            (&MatcherToken::OneOfText(vec!["aba", "abac"]), "abac"),
            (&MatcherToken::WildCard, "d")
        ]
    );
    assert_eq!(matcher.most_tokens_matched(), 4);
}
