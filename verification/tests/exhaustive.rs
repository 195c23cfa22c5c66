use pattern_matcher::matcher::Matcher;
use pattern_matcher::token::MatcherToken;

#[test]
fn exhaustive_finds_the_complete_match_that_greedy_misses() {
    let mut matcher = Matcher::new("(aba|abac).(aba|abac).").unwrap();
    let result = matcher.match_string_exhaustive("abacabacd");
    assert_eq!(
        result,
        vec![
            (&MatcherToken::OneOfText(vec!["aba", "abac"]), "aba"),
            (&MatcherToken::WildCard, "c"),
            (&MatcherToken::OneOfText(vec!["aba", "abac"]), "abac"),
            (&MatcherToken::WildCard, "d")
        ]
    );
}

#[test]
fn exhaustive_goes_back_on_an_earlier_choice() {
    let mut matcher = Matcher::new("(a|ab)(c|d)").unwrap();
    assert_eq!(
        matcher.match_string("abd"),
        vec![(&MatcherToken::OneOfText(vec!["a", "ab"]), "a")]
    );
    assert_eq!(
        matcher.match_string_exhaustive("abd"),
        vec![
            (&MatcherToken::OneOfText(vec!["a", "ab"]), "ab"),
            (&MatcherToken::OneOfText(vec!["c", "d"]), "d")
        ]
    );
}

#[test]
fn exhaustive_is_never_behind_greedy() {
    let patterns = [
        "(a|ab)(c|d)",
        "(a|ab)(c|bc)",
        "(ab|a)(b|c).",
        "a(b|bc)(c|d)e",
        "(a|aa)(a|aa)(a|aa)",
        "x(y|z).(y|z)",
        ".(a|b)",
        "abc",
    ];
    let candidates = [
        "", "a", "ac", "abc", "abd", "abcd", "abcde", "aaaa", "aaaaa", "xyzz", "xzyy", "abce",
    ];
    for pattern in patterns {
        for candidate in candidates {
            let mut matcher = Matcher::new(pattern).unwrap();
            let greedy = matcher.match_string(candidate).len();
            let exhaustive = matcher.match_string_exhaustive(candidate).len();
            assert!(
                exhaustive >= greedy,
                "{} on {}: {} < {}",
                pattern,
                candidate,
                exhaustive,
                greedy
            );
            assert!(exhaustive <= matcher.tokens().len());
        }
    }
}

#[test]
fn two_alternations_in_a_row_are_both_resolved() {
    let mut matcher = Matcher::new("(a|ab)(c|d)").unwrap();
    assert_eq!(
        matcher.match_string_exhaustive("ac"),
        vec![
            (&MatcherToken::OneOfText(vec!["a", "ab"]), "a"),
            (&MatcherToken::OneOfText(vec!["c", "d"]), "c")
        ]
    );
    assert_eq!(matcher.most_tokens_matched(), 2);
}

#[test]
fn of_equally_long_ways_the_later_option_wins() {
    // both options of the first alternation lead through both tokens
    let mut matcher = Matcher::new("(a|ab)(bc|c)").unwrap();
    assert_eq!(
        matcher.match_string_exhaustive("abc"),
        vec![
            (&MatcherToken::OneOfText(vec!["a", "ab"]), "ab"),
            (&MatcherToken::OneOfText(vec!["bc", "c"]), "c")
        ]
    );
    assert_eq!(
        matcher.match_string("abc"),
        vec![
            (&MatcherToken::OneOfText(vec!["a", "ab"]), "a"),
            (&MatcherToken::OneOfText(vec!["bc", "c"]), "bc")
        ]
    );
    // neither option gets past the second token
    let mut matcher = Matcher::new("(a|ab)x").unwrap();
    assert_eq!(
        matcher.match_string_exhaustive("abz"),
        vec![(&MatcherToken::OneOfText(vec!["a", "ab"]), "ab")]
    );
}

#[test]
fn a_longer_way_replaces_a_shorter_one_found_first() {
    // the last option is explored first and gets through three tokens, the
    // first option through all four
    let mut matcher = Matcher::new("(ab|a)b.c").unwrap();
    assert_eq!(
        matcher.match_string_exhaustive("abbxc"),
        vec![
            (&MatcherToken::OneOfText(vec!["ab", "a"]), "ab"),
            (&MatcherToken::RawText("b"), "b"),
            (&MatcherToken::WildCard, "x"),
            (&MatcherToken::RawText("c"), "c")
        ]
    );
    // neither gets through all: three tokens against two
    let mut matcher = Matcher::new("(abb|a)b.c").unwrap();
    assert_eq!(
        matcher.match_string_exhaustive("abbx"),
        vec![
            (&MatcherToken::OneOfText(vec!["abb", "a"]), "a"),
            (&MatcherToken::RawText("b"), "b"),
            (&MatcherToken::WildCard, "b")
        ]
    );
    let mut matcher = Matcher::new("(a|abb)b.c").unwrap();
    assert_eq!(
        matcher.match_string_exhaustive("abbx"),
        vec![
            (&MatcherToken::OneOfText(vec!["a", "abb"]), "a"),
            (&MatcherToken::RawText("b"), "b"),
            (&MatcherToken::WildCard, "b")
        ]
    );
}

#[test]
fn a_shorter_way_does_not_replace_a_longer_one() {
    let mut matcher = Matcher::new("(a|ab)b.c").unwrap();
    assert_eq!(
        matcher.match_string_exhaustive("abbxc"),
        vec![
            (&MatcherToken::OneOfText(vec!["a", "ab"]), "ab"),
            (&MatcherToken::RawText("b"), "b"),
            (&MatcherToken::WildCard, "x"),
            (&MatcherToken::RawText("c"), "c")
        ]
    );
}

#[test]
fn alternation_that_cannot_match_ends_the_search() {
    let mut matcher = Matcher::new("ab(c|d)e").unwrap();
    assert_eq!(
        matcher.match_string_exhaustive("abxe"),
        vec![(&MatcherToken::RawText("ab"), "ab")]
    );
    assert_eq!(matcher.match_string_exhaustive("xbce"), vec![]);
    assert_eq!(matcher.most_tokens_matched(), 1);
}

#[test]
fn exhaustive_without_alternation_is_the_single_pass() {
    let mut matcher = Matcher::new("a.c.").unwrap();
    assert_eq!(
        matcher.match_string_exhaustive("abcd"),
        vec![
            (&MatcherToken::RawText("a"), "a"),
            (&MatcherToken::WildCard, "b"),
            (&MatcherToken::RawText("c"), "c"),
            (&MatcherToken::WildCard, "d")
        ]
    );
    assert_eq!(
        matcher.match_string_exhaustive("abd"),
        vec![
            (&MatcherToken::RawText("a"), "a"),
            (&MatcherToken::WildCard, "b")
        ]
    );
}

#[test]
fn deep_search_does_not_depend_on_the_call_stack() {
    let mut pattern = String::new();
    let mut candidate = String::new();
    for _ in 0..2000 {
        pattern.push_str("(a|b)");
        candidate.push('a');
    }
    let mut matcher = Matcher::new(&pattern).unwrap();
    let result = matcher.match_string_exhaustive(&candidate);
    assert_eq!(result.len(), 2000);
    assert_eq!(matcher.most_tokens_matched(), 2000);
}

#[test]
fn exhaustive_wildcard_takes_one_multi_byte_character_whole() {
    let mut matcher = Matcher::new("(a|\u{1f4aa}).(b|\u{e9})").unwrap();
    assert_eq!(
        matcher.match_string_exhaustive("\u{1f4aa}\u{4e16}\u{e9}"),
        vec![
            (&MatcherToken::OneOfText(vec!["a", "\u{1f4aa}"]), "\u{1f4aa}"),
            (&MatcherToken::WildCard, "\u{4e16}"),
            (&MatcherToken::OneOfText(vec!["b", "\u{e9}"]), "\u{e9}")
        ]
    );
}
