//! The exhaustive matcher: a depth-first search over every option of every
//! alternation, run on a stack of frames instead of by recursion.

use vstd::prelude::*;
use vstd::slice::*;
use vstd::string::*;
use crate::frame::{
    opened_by, reported_to, spawned_by, Frame, InputData, OptionalInputData, OptionalOutputData,
    OutputData,
};
use crate::matcher::Matcher;
use crate::steps::pieces;
use crate::rules::{lemma_matching_fits, matching, run, step};
use crate::text::split_after;
use crate::token::{token_views, MatcherToken, TokenView};

verus! {

impl<'internal> Matcher<'internal> {
    /// Works off one input frame. The frame's tokens are matched one after
    /// another until one does not fit, an alternation is met, or none is left.
    /// An output frame with the steps so far is pushed, and above it, where
    /// an alternation was met, one input frame for each option that fits, in
    /// the order of the options.
    pub fn process_input_frame<'a, 'b, 'c, 'd>(
        input_data: InputData<'a, 'b, 'c>,
        stack: &'d mut Vec<Frame<'a, 'b, 'c>>,
    )
        ensures
            final(stack)@.len() == old(stack)@.len() + 1 + input_data.choices().len(),
            final(stack)@.take(old(stack)@.len() as int) == old(stack)@,
            opened_by(final(stack)@[old(stack)@.len() as int], input_data),
            forall|j: int|
                0 <= j < input_data.choices().len() ==> spawned_by(
                    #[trigger] final(stack)@[old(stack)@.len() + 1 + j],
                    input_data,
                    j,
                    old(stack)@.len() as int,
                ),
    {
        let tokens = input_data.tokens;
        let mut string: &'c str = input_data.string;
        let mut matched_tokens: Vec<(&'a MatcherToken<'b>, &'c str)> =
            match &input_data.optional_data {
            Some(d) => vec![d.chosen_option],
            None => Vec::new(),
        };
        let mut options_found: Option<Vec<(usize, &'a MatcherToken<'b>, &'b str)>> = None;
        let ghost g = input_data.given();
        let ghost views = token_views(tokens@);
        let ghost whole = input_data.run();
        let mut index: usize = 0;
        let mut walking = true;
        proof {
            assert(views.skip(0) =~= views);
            assert(pieces(matched_tokens@).skip(g) =~= Seq::empty());
        }
        while walking && index < tokens.len()
            invariant
                tokens == input_data.tokens,
                views == token_views(tokens@),
                whole == run(views, input_data.string@),
                g == input_data.given(),
                0 <= index <= tokens@.len(),
                matched_tokens@.len() == g + index,
                input_data.optional_data matches Some(d) ==> matched_tokens@[0] == d.chosen_option,
                forall|i: int|
                    0 <= i < index ==> *(#[trigger] matched_tokens@[g + i]).0 == tokens@[i],
                whole.pieces =~= pieces(matched_tokens@).skip(g) + run(
                    views.skip(index as int),
                    string@,
                ).pieces,
                whole.rest == run(views.skip(index as int), string@).rest,
                !walking ==> index < tokens@.len() && run(
                    views.skip(index as int),
                    string@,
                ).pieces.len() == 0 && run(views.skip(index as int), string@).rest == string@,
                match options_found {
                    Some(found) => {
                        &&& !walking
                        &&& views[index as int] matches TokenView::OneOfText(options)
                        &&& found@.len() == matching(options, string@).len()
                        &&& forall|k: int|
                            0 <= k < found@.len() ==> (#[trigger] found@[k]).0 == index
                                && *found@[k].1 == tokens@[index as int] && found@[k].2@
                                == matching(options, string@)[k]
                    },
                    None => walking || !(views[index as int] is OneOfText),
                },
            decreases tokens@.len() - index + if walking { 1int } else { 0int },
        {
            let token = &tokens[index];
            let ghost before = matched_tokens@;
            let ghost here = views.skip(index as int);
            let ghost text_before = string@;
            proof {
                assert(here[0] == token@);
                assert(here.drop_first() =~= views.skip(index + 1));
            }
            let fits = match token {
                MatcherToken::RawText(text) => Self::match_raw_text(
                    text,
                    token,
                    &mut matched_tokens,
                    &mut string,
                ),
                MatcherToken::OneOfText(options) => {
                    options_found = Some(
                        Self::match_one_of_text_exhaustive(options, token, index, string),
                    );
                    false
                },
                MatcherToken::WildCard => Self::match_wild_card(
                    token,
                    &mut matched_tokens,
                    &mut string,
                ),
            };
            if fits {
                proof {
                    assert(step(here[0], text_before) == Some(matched_tokens@.last().1@));
                    assert(pieces(matched_tokens@).skip(g) =~= pieces(before).skip(g).push(
                        matched_tokens@.last().1@,
                    ));
                    assert forall|i: int| 0 <= i < index + 1 implies *(
                    #[trigger] matched_tokens@[g + i]).0 == tokens@[i] by {
                        if i < index {
                            assert(matched_tokens@[g + i] == matched_tokens@.drop_last()[g + i]);
                        }
                    }
                    if g == 1 {
                        assert(matched_tokens@[0] == matched_tokens@.drop_last()[0]);
                    }
                }
                index += 1;
            } else {
                walking = false;
            }
        }
        proof {
            if walking {
                assert(views.skip(index as int).len() == 0);
            }
            assert(whole.pieces =~= pieces(matched_tokens@).skip(g));
            assert(whole.rest == string@);
        }

        let matched_tokens_count = matched_tokens.len();
        let output_frame_index = stack.len();
        let parent = match &input_data.optional_data {
            Some(d) => Some(OptionalOutputData { parent_frame_index: d.parent_frame_index }),
            None => None,
        };
        stack.push(
            Frame::Output(
                OutputData {
                    matched_tokens,
                    matched_tokens_count,
                    best_current_matched_tokens: Vec::new(),
                    best_current_matched_tokens_count: 0,
                    is_complete_match: index == tokens.len(),
                    optional_data: parent,
                },
            ),
        );
        proof {
            assert(stack@.take(old(stack)@.len() as int) =~= old(stack)@);
            assert(opened_by(stack@[old(stack)@.len() as int], input_data));
        }

        match options_found {
            None => {
                proof {
                    assert(input_data.choices().len() == 0);
                }
            },
            Some(found) => {
                let ghost choices = input_data.choices();
                let mut n: usize = 0;
                proof {
                    lemma_matching_fits(views[index as int]->OneOfText_0, string@);
                }
                while n < found.len()
                    invariant
                        0 <= n <= found@.len(),
                        tokens == input_data.tokens,
                        whole == input_data.run(),
                        whole.rest == string@,
                        whole.pieces.len() == index,
                        index < tokens@.len(),
                        choices == input_data.choices(),
                        found@.len() == choices.len(),
                        forall|k: int|
                            0 <= k < found@.len() ==> (#[trigger] found@[k]).0 == index
                                && *found@[k].1 == tokens@[index as int] && found@[k].2@
                                == choices[k],
                        forall|k: int|
                            0 <= k < choices.len() ==> (#[trigger] choices[k]).is_prefix_of(
                                string@,
                            ),
                        output_frame_index == old(stack)@.len(),
                        stack@.len() == output_frame_index + 1 + n,
                        stack@.take(output_frame_index as int) == old(stack)@,
                        opened_by(stack@[output_frame_index as int], input_data),
                        forall|j: int|
                            0 <= j < n ==> spawned_by(
                                #[trigger] stack@[output_frame_index + 1 + j],
                                input_data,
                                j,
                                output_frame_index as int,
                            ),
                    decreases found@.len() - n,
                {
                    let (at, token, option) = found[n];
                    let ghost below = stack@;
                    assert(found@[n as int].0 == index);
                    assert(choices[n as int].is_prefix_of(string@));
                    assert(string@.take(option@.len() as int) =~= option@);
                    let (head, tail) = split_after(
                        string,
                        option.as_bytes().len(),
                        Ghost(option@.len() as int),
                    );
                    let total = tokens.len();
                    let rest = slice_subrange(tokens, at + 1, total);
                    stack.push(
                        Frame::Input(
                            InputData {
                                tokens: rest,
                                string: tail,
                                optional_data: Some(
                                    OptionalInputData {
                                        chosen_option: (token, head),
                                        parent_frame_index: output_frame_index,
                                    },
                                ),
                            },
                        ),
                    );
                    proof {
                        assert(stack@.take(output_frame_index as int) =~= below.take(
                            output_frame_index as int,
                        ));
                        assert(stack@[output_frame_index as int]
                            == below[output_frame_index as int]);
                        assert forall|j: int| 0 <= j < n + 1 implies spawned_by(
                            #[trigger] stack@[output_frame_index + 1 + j],
                            input_data,
                            j,
                            output_frame_index as int,
                        ) by {
                            if j < n {
                                assert(stack@[output_frame_index + 1 + j]
                                    == below[output_frame_index + 1 + j]);
                            }
                        }
                    }
                    n += 1;
                }
            },
        }
    }

    /// Works off one output frame. Its steps are its own followed by the best
    /// of its children. Without a parent they are the result of the search
    /// and are returned. With a parent they are offered to it, nothing is
    /// returned, and the search goes on.
    pub fn process_output_frame<'a, 'b, 'c, 'd>(
        output_data: OutputData<'a, 'b, 'c>,
        stack: &'d mut Vec<Frame<'a, 'b, 'c>>,
    ) -> (result: Option<Vec<(&'a MatcherToken<'b>, &'c str)>>)
        requires
            output_data.wf(),
            output_data.optional_data matches Some(d) ==> d.parent_frame_index < old(stack)@.len()
                && old(stack)@[d.parent_frame_index as int] is Output,
        ensures
            final(stack)@.len() == old(stack)@.len(),
            match output_data.optional_data {
                None => {
                    &&& result matches Some(steps)
                    &&& steps@ == output_data.matched_tokens@
                        + output_data.best_current_matched_tokens@
                    &&& final(stack)@ == old(stack)@
                },
                Some(d) => {
                    let at = d.parent_frame_index as int;
                    &&& result is None
                    &&& forall|i: int|
                        0 <= i < old(stack)@.len() && i != at ==> final(stack)@[i] == old(stack)@[i]
                    &&& final(stack)@[at] matches Frame::Output(after)
                    &&& reported_to(output_data, old(stack)@[at]->Output_0, after)
                },
            },
    {
        let OutputData {
            mut matched_tokens,
            matched_tokens_count,
            mut best_current_matched_tokens,
            best_current_matched_tokens_count,
            is_complete_match,
            optional_data,
        } = output_data;
        matched_tokens.append(&mut best_current_matched_tokens);
        assert(matched_tokens.len() == matched_tokens@.len());
        let matched_tokens_count = matched_tokens_count + best_current_matched_tokens_count;

        if let Some(optional_data) = optional_data {
            match &mut stack[optional_data.parent_frame_index] {
                Frame::Output(parent_output_data) => {
                    if is_complete_match {
                        if !parent_output_data.is_complete_match || matched_tokens_count
                            > parent_output_data.best_current_matched_tokens_count {
                            parent_output_data.best_current_matched_tokens_count =
                                matched_tokens_count;
                            parent_output_data.best_current_matched_tokens = matched_tokens;
                            parent_output_data.is_complete_match = true;
                        }
                    } else {
                        if !parent_output_data.is_complete_match && matched_tokens_count
                            > parent_output_data.best_current_matched_tokens_count {
                            parent_output_data.best_current_matched_tokens_count =
                                matched_tokens_count;
                            parent_output_data.best_current_matched_tokens = matched_tokens;
                        }
                    }
                },
                Frame::Input(_) => {},
            }
            None
        } else {
            Some(matched_tokens)
        }
    }
}

} // verus!
