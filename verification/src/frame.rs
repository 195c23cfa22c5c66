//! The frames of the exhaustive search: work still to do and results on their
//! way back to the choice that asked for them. They live on one stack, and a
//! frame names its parent by the parent's position on that stack.

use vstd::prelude::*;
use crate::rules::{choices_after_run, run, Run};
use crate::token::{token_views, MatcherToken};

verus! {

/// What an input frame knows where it stands for one option of an alternation.
#[derive(Debug, PartialEq, Eq)]
pub struct OptionalInputData<'reference, 'matcher_token, 'str_to_match> {
    /// The alternation and the part of the candidate that the option consumed.
    pub chosen_option: (&'reference MatcherToken<'matcher_token>, &'str_to_match str),
    /// The position of the output frame of the alternation's own frame.
    pub parent_frame_index: usize,
}

/// Work to do: match `tokens` at the front of `string`.
#[derive(Debug, PartialEq, Eq)]
pub struct InputData<'reference, 'matcher_token, 'str_to_match> {
    /// The tokens still to be matched.
    pub tokens: &'reference [MatcherToken<'matcher_token>],
    /// What is left of the candidate.
    pub string: &'str_to_match str,
    /// The option that led here; nothing for the root of the search.
    pub optional_data: Option<OptionalInputData<'reference, 'matcher_token, 'str_to_match>>,
}

/// What an output frame knows where its result goes to a parent.
#[derive(Debug, PartialEq, Eq)]
pub struct OptionalOutputData {
    /// The position of the parent's output frame.
    pub parent_frame_index: usize,
}

/// A result on its way back: the steps of a frame's own run, and the best of
/// what the options explored so far have added to it.
#[derive(Debug, PartialEq, Eq)]
pub struct OutputData<'reference, 'matcher_token, 'str_to_match> {
    /// The steps of the frame itself: the option that led to it, if any,
    /// then the steps of its run.
    pub matched_tokens: Vec<(&'reference MatcherToken<'matcher_token>, &'str_to_match str)>,
    /// How many those are.
    pub matched_tokens_count: usize,
    /// The best that a child has reported so far.
    pub best_current_matched_tokens: Vec<
        (&'reference MatcherToken<'matcher_token>, &'str_to_match str),
    >,
    /// How many those are.
    pub best_current_matched_tokens_count: usize,
    /// Whether the steps, with the best of the children, get through all
    /// the tokens.
    pub is_complete_match: bool,
    /// The parent to report to; nothing for the root of the search.
    pub optional_data: Option<OptionalOutputData>,
}

/// One entry of the stack of the exhaustive search.
#[derive(Debug, PartialEq, Eq)]
pub enum Frame<'reference, 'matcher_token, 'str_to_match> {
    /// Work to do.
    Input(InputData<'reference, 'matcher_token, 'str_to_match>),
    /// A result waiting for its children, then on its way to its parent.
    Output(OutputData<'reference, 'matcher_token, 'str_to_match>),
}

impl<'reference, 'matcher_token, 'str_to_match> InputData<
    'reference,
    'matcher_token,
    'str_to_match,
> {
    /// The number of steps that the frame starts with: one where it stands
    /// for an option, none otherwise.
    pub open spec fn given(&self) -> int {
        if self.optional_data is Some {
            1
        } else {
            0
        }
    }

    /// The run of the frame's tokens on its string.
    pub open spec fn run(&self) -> Run {
        run(token_views(self.tokens@), self.string@)
    }

    /// The options among which the frame's run leaves the choice.
    pub open spec fn choices(&self) -> Seq<Seq<char>> {
        choices_after_run(token_views(self.tokens@), self.string@)
    }
}

impl<'reference, 'matcher_token, 'str_to_match> OutputData<
    'reference,
    'matcher_token,
    'str_to_match,
> {
    /// The two counts are the lengths of the two lists.
    pub open spec fn wf(&self) -> bool {
        &&& self.matched_tokens_count == self.matched_tokens@.len()
        &&& self.best_current_matched_tokens_count == self.best_current_matched_tokens@.len()
    }
}

/// `o` holds the steps with which the output frame of `input` starts: the
/// option that `input` stands for, if any, then the steps of its run. It goes
/// to the parent that `input` names.
pub open spec fn carries(o: OutputData, input: InputData) -> bool {
    let r = input.run();
    let k = r.pieces.len() as int;
    let g = input.given();
    &&& o.matched_tokens_count == o.matched_tokens@.len()
    &&& o.matched_tokens@.len() == g + k
    &&& input.optional_data matches Some(d) ==> o.matched_tokens@[0] == d.chosen_option
    &&& forall|i: int|
        0 <= i < k ==> *(#[trigger] o.matched_tokens@[g + i]).0 == input.tokens@[i]
            && o.matched_tokens@[g + i].1@ == r.pieces[i]
    &&& match input.optional_data {
        Some(d) => o.optional_data == Some(
            OptionalOutputData { parent_frame_index: d.parent_frame_index },
        ),
        None => o.optional_data is None,
    }
}

/// `frame` is the output frame that an input frame leaves behind: its first
/// steps; nothing yet from its children; complete where the run got through
/// all its tokens.
pub open spec fn opened_by(frame: Frame, input: InputData) -> bool {
    &&& frame matches Frame::Output(o)
    &&& carries(o, input)
    &&& o.best_current_matched_tokens@.len() == 0
    &&& o.best_current_matched_tokens_count == 0
    &&& o.is_complete_match == (input.run().pieces.len() == input.tokens@.len())
}

/// `frame` is the input frame for the `j`-th of the options among which the
/// run of `input` leaves the choice: the tokens after the alternation, the
/// string after the option, and the option as the step already taken, to be
/// reported to the frame at `parent`.
pub open spec fn spawned_by(frame: Frame, input: InputData, j: int, parent: int) -> bool {
    let r = input.run();
    let k = r.pieces.len() as int;
    let option = input.choices()[j];
    &&& frame matches Frame::Input(c)
    &&& c.tokens@ == input.tokens@.skip(k + 1)
    &&& c.string@ == r.rest.skip(option.len() as int)
    &&& c.optional_data matches Some(d)
    &&& *d.chosen_option.0 == input.tokens@[k]
    &&& d.chosen_option.1@ == option
    &&& d.parent_frame_index == parent
}

/// Whether a child's result takes the place of the best one that its parent
/// holds so far: a complete one where the parent's is not, and otherwise, the
/// two being alike in that, one that is strictly longer.
pub open spec fn replaces(
    child_complete: bool,
    child_count: int,
    best_complete: bool,
    best_count: int,
) -> bool {
    (child_complete && !best_complete) || (child_complete == best_complete && child_count
        > best_count)
}

/// `after` is the parent `before` once the child `child` has reported to
/// it: where the child's steps, its own followed by the best of its
/// children, replace the parent's best so far, they are taken over with
/// their count and their completeness; else nothing changes.
pub open spec fn reported_to(child: OutputData, before: OutputData, after: OutputData) -> bool {
    let steps = child.matched_tokens@ + child.best_current_matched_tokens@;
    if replaces(
        child.is_complete_match,
        steps.len() as int,
        before.is_complete_match,
        before.best_current_matched_tokens_count as int,
    ) {
        &&& after.matched_tokens == before.matched_tokens
        &&& after.matched_tokens_count == before.matched_tokens_count
        &&& after.optional_data == before.optional_data
        &&& after.best_current_matched_tokens@ == steps
        &&& after.best_current_matched_tokens_count == steps.len()
        &&& after.is_complete_match == child.is_complete_match
    } else {
        after == before
    }
}

} // verus!
