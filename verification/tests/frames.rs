use pattern_matcher::frame::{
    Frame, InputData, OptionalInputData, OptionalOutputData, OutputData,
};
use pattern_matcher::matcher::Matcher;
use pattern_matcher::token::MatcherToken;

fn output<'r, 'm, 's>(
    matched: Vec<(&'r MatcherToken<'m>, &'s str)>,
    best: Vec<(&'r MatcherToken<'m>, &'s str)>,
    complete: bool,
    parent: Option<usize>,
) -> OutputData<'r, 'm, 's> {
    OutputData {
        matched_tokens_count: matched.len(),
        matched_tokens: matched,
        best_current_matched_tokens_count: best.len(),
        best_current_matched_tokens: best,
        is_complete_match: complete,
        optional_data: parent.map(|parent_frame_index| OptionalOutputData { parent_frame_index }),
    }
}

#[test]
fn input_frame_without_alternation_leaves_one_complete_output() {
    let tokens = vec![MatcherToken::RawText("ab"), MatcherToken::WildCard];
    let mut stack = Vec::new();
    Matcher::process_input_frame(
        InputData {
            tokens: &tokens,
            string: "abc",
            optional_data: None,
        },
        &mut stack,
    );
    assert_eq!(
        stack,
        vec![Frame::Output(output(
            vec![(&tokens[0], "ab"), (&tokens[1], "c")],
            vec![],
            true,
            None
        ))]
    );
}

#[test]
fn input_frame_that_fails_leaves_one_incomplete_output() {
    let tokens = vec![MatcherToken::RawText("ab"), MatcherToken::RawText("x")];
    let below = MatcherToken::WildCard;
    let mut stack = vec![Frame::Output(output(vec![(&below, "q")], vec![], false, None))];
    Matcher::process_input_frame(
        InputData {
            tokens: &tokens,
            string: "abc",
            optional_data: Some(OptionalInputData {
                chosen_option: (&below, "q"),
                parent_frame_index: 0,
            }),
        },
        &mut stack,
    );
    assert_eq!(
        stack,
        vec![
            Frame::Output(output(vec![(&below, "q")], vec![], false, None)),
            Frame::Output(output(
                vec![(&below, "q"), (&tokens[0], "ab")],
                vec![],
                false,
                Some(0)
            ))
        ]
    );
}

#[test]
fn input_frame_spawns_one_child_for_each_option_that_fits() {
    let tokens = vec![
        MatcherToken::WildCard,
        MatcherToken::OneOfText(vec!["b", "x", "bc"]),
        MatcherToken::RawText("d"),
    ];
    let mut stack = Vec::new();
    Matcher::process_input_frame(
        InputData {
            tokens: &tokens,
            string: "abcd",
            optional_data: None,
        },
        &mut stack,
    );
    assert_eq!(
        stack,
        vec![
            Frame::Output(output(vec![(&tokens[0], "a")], vec![], false, None)),
            Frame::Input(InputData {
                tokens: &tokens[2..],
                string: "cd",
                optional_data: Some(OptionalInputData {
                    chosen_option: (&tokens[1], "b"),
                    parent_frame_index: 0,
                }),
            }),
            Frame::Input(InputData {
                tokens: &tokens[2..],
                string: "d",
                optional_data: Some(OptionalInputData {
                    chosen_option: (&tokens[1], "bc"),
                    parent_frame_index: 0,
                }),
            }),
        ]
    );
}

#[test]
fn input_frame_ending_at_a_last_alternation_is_not_complete() {
    let tokens = vec![
        MatcherToken::RawText("a"),
        MatcherToken::OneOfText(vec!["b", "c"]),
    ];
    let first = MatcherToken::OneOfText(vec!["q", "r"]);
    let mut stack = vec![Frame::Output(output(vec![], vec![], false, None))];
    Matcher::process_input_frame(
        InputData {
            tokens: &tokens,
            string: "ab",
            optional_data: Some(OptionalInputData {
                chosen_option: (&first, "q"),
                parent_frame_index: 0,
            }),
        },
        &mut stack,
    );
    assert_eq!(stack.len(), 3);
    assert_eq!(
        stack[1],
        Frame::Output(output(
            vec![(&first, "q"), (&tokens[0], "a")],
            vec![],
            false,
            Some(0)
        ))
    );
    assert_eq!(
        stack[2],
        Frame::Input(InputData {
            tokens: &tokens[2..],
            string: "",
            optional_data: Some(OptionalInputData {
                chosen_option: (&tokens[1], "b"),
                parent_frame_index: 1,
            }),
        })
    );
}

#[test]
fn child_frame_that_gets_through_its_tokens_is_complete() {
    let tokens = vec![MatcherToken::WildCard];
    let first = MatcherToken::OneOfText(vec!["q", "r"]);
    let mut stack = vec![Frame::Output(output(vec![], vec![], false, None))];
    Matcher::process_input_frame(
        InputData {
            tokens: &tokens,
            string: "z",
            optional_data: Some(OptionalInputData {
                chosen_option: (&first, "q"),
                parent_frame_index: 0,
            }),
        },
        &mut stack,
    );
    assert_eq!(
        stack[1],
        Frame::Output(output(
            vec![(&first, "q"), (&tokens[0], "z")],
            vec![],
            true,
            Some(0)
        ))
    );
}

#[test]
fn root_output_frame_returns_its_steps_and_the_best_of_its_children() {
    let a = MatcherToken::RawText("a");
    let b = MatcherToken::OneOfText(vec!["b", "c"]);
    let mut stack = Vec::new();
    let result = Matcher::process_output_frame(
        output(vec![(&a, "a")], vec![(&b, "b")], true, None),
        &mut stack,
    );
    assert_eq!(result, Some(vec![(&a, "a"), (&b, "b")]));
    assert_eq!(stack, vec![]);
}

#[test]
fn complete_child_replaces_an_incomplete_best() {
    let a = MatcherToken::RawText("a");
    let b = MatcherToken::OneOfText(vec!["b", "c"]);
    let w = MatcherToken::WildCard;
    let mut stack = vec![Frame::Output(output(
        vec![(&a, "a")],
        vec![(&b, "c"), (&w, "x")],
        false,
        None,
    ))];
    let result = Matcher::process_output_frame(
        output(vec![(&b, "b")], vec![], true, Some(0)),
        &mut stack,
    );
    assert_eq!(result, None);
    assert_eq!(
        stack,
        vec![Frame::Output(output(
            vec![(&a, "a")],
            vec![(&b, "b")],
            true,
            None
        ))]
    );
}

#[test]
fn incomplete_child_never_replaces_a_complete_best() {
    let a = MatcherToken::RawText("a");
    let b = MatcherToken::OneOfText(vec!["b", "c"]);
    let w = MatcherToken::WildCard;
    let mut stack = vec![Frame::Output(output(
        vec![(&a, "a")],
        vec![(&b, "b")],
        true,
        None,
    ))];
    let result = Matcher::process_output_frame(
        output(vec![(&b, "c"), (&w, "x")], vec![(&w, "y")], false, Some(0)),
        &mut stack,
    );
    assert_eq!(result, None);
    assert_eq!(
        stack,
        vec![Frame::Output(output(
            vec![(&a, "a")],
            vec![(&b, "b")],
            true,
            None
        ))]
    );
}

#[test]
fn longer_child_replaces_a_best_of_the_same_completeness() {
    let a = MatcherToken::RawText("a");
    let b = MatcherToken::OneOfText(vec!["b", "c"]);
    let w = MatcherToken::WildCard;
    let mut stack = vec![Frame::Output(output(
        vec![(&a, "a")],
        vec![(&b, "b")],
        false,
        None,
    ))];
    let result = Matcher::process_output_frame(
        output(vec![(&b, "c")], vec![(&w, "x")], false, Some(0)),
        &mut stack,
    );
    assert_eq!(result, None);
    assert_eq!(
        stack,
        vec![Frame::Output(output(
            vec![(&a, "a")],
            vec![(&b, "c"), (&w, "x")],
            false,
            None
        ))]
    );
    // as long as the best so far: the one found first stays
    let result = Matcher::process_output_frame(
        output(vec![(&b, "b"), (&w, "y")], vec![], false, Some(0)),
        &mut stack,
    );
    assert_eq!(result, None);
    assert_eq!(
        stack,
        vec![Frame::Output(output(
            vec![(&a, "a")],
            vec![(&b, "c"), (&w, "x")],
            false,
            None
        ))]
    );
    // two complete ones: the longer replaces the shorter
    let mut stack = vec![Frame::Output(output(
        vec![(&a, "a")],
        vec![(&b, "b")],
        true,
        None,
    ))];
    Matcher::process_output_frame(
        output(vec![(&b, "c"), (&w, "x")], vec![], true, Some(0)),
        &mut stack,
    );
    assert_eq!(
        stack,
        vec![Frame::Output(output(
            vec![(&a, "a")],
            vec![(&b, "c"), (&w, "x")],
            true,
            None
        ))]
    );
}

#[test]
fn child_reports_to_the_frame_that_it_names() {
    let a = MatcherToken::RawText("a");
    let b = MatcherToken::OneOfText(vec!["b", "c"]);
    let mut stack = vec![
        Frame::Output(output(vec![], vec![], false, None)),
        Frame::Input(InputData {
            tokens: &[],
            string: "",
            optional_data: None,
        }),
        Frame::Output(output(vec![(&a, "a")], vec![], false, Some(0))),
    ];
    let result = Matcher::process_output_frame(
        output(vec![(&b, "b")], vec![], true, Some(2)),
        &mut stack,
    );
    assert_eq!(result, None);
    assert_eq!(stack.len(), 3);
    assert_eq!(stack[0], Frame::Output(output(vec![], vec![], false, None)));
    assert_eq!(
        stack[2],
        Frame::Output(output(vec![(&a, "a")], vec![(&b, "b")], true, Some(0)))
    );
}
