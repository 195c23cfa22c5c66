//! Why the stack of frames computes the depth-first search: what holds of
//! the stack between any two steps of the exhaustive matcher.
//!
//! The output frames on the stack form a chain from the root to the frame
//! whose options are being explored. Above each stand the input frames of
//! its options that are still to be explored, and above those the next
//! output frame of the chain, which belongs to the option explored now.

use vstd::prelude::*;
use crate::frame::{
    carries, opened_by, replaces, reported_to, spawned_by, Frame, InputData, OutputData,
};
use crate::steps::{follows, pieces};
use crate::rules::{
    best_from, branches_size, lemma_best_from_len, lemma_run_len, lemma_search_by_run,
    lemma_search_len, search, through_choice, tree_size,
};
use crate::token::{token_views, MatcherToken, TokenView};

verus! {

/// One output frame of the chain.
pub struct Level<'r, 'm, 's> {
    /// Where the output frame stands on the stack.
    pub pos: int,
    /// The input frame that it came from.
    pub input: InputData<'r, 'm, 's>,
    /// How many of its options are still to be explored: the first so many.
    pub pending: int,
}

/// The tokens that follow the alternation at which the run of `input` ends.
pub open spec fn tokens_after(input: InputData) -> Seq<TokenView> {
    token_views(input.tokens@).skip(input.run().pieces.len() as int + 1)
}

/// `o` holds, as the best of the children of `input`, the best way from the
/// option `done` on, and is complete where that way, after the run of
/// `input`, gets through all its tokens.
pub open spec fn holds_best(o: OutputData, input: InputData, done: int) -> bool {
    let k = input.run().pieces.len() as int;
    let best = best_from(tokens_after(input), input.run().rest, input.choices(), done);
    &&& o.best_current_matched_tokens_count == o.best_current_matched_tokens@.len()
    &&& o.best_current_matched_tokens@.len() == best.len()
    &&& forall|i: int|
        0 <= i < best.len() ==> *(#[trigger] o.best_current_matched_tokens@[i]).0
            == input.tokens@[k + i] && o.best_current_matched_tokens@[i].1@ == best[i]
    &&& o.is_complete_match == (k + best.len() == input.tokens@.len())
}

/// What holds of the level `j` of the chain.
pub open spec fn level_ok(stack: Seq<Frame>, levels: Seq<Level>, j: int) -> bool {
    let level = levels[j];
    let last = j == levels.len() - 1;
    &&& 0 <= level.pos < stack.len()
    &&& 0 <= level.pending <= level.input.choices().len()
    &&& stack[level.pos] matches Frame::Output(o)
    &&& carries(o, level.input)
    &&& holds_best(
        o,
        level.input,
        if last {
            level.pending
        } else {
            level.pending + 1
        },
    )
    &&& forall|i: int|
        0 <= i < level.pending ==> spawned_by(
            #[trigger] stack[level.pos + 1 + i],
            level.input,
            i,
            level.pos,
        )
    &&& if last {
        stack.len() == level.pos + level.pending + 1
    } else {
        &&& level.pending < level.input.choices().len()
        &&& levels[j + 1].pos == level.pos + level.pending + 1
        &&& spawned_by(Frame::Input(levels[j + 1].input), level.input, level.pending, level.pos)
    }
}

/// What holds of the stack once the root frame has been worked off: the
/// chain starts with the output frame of `root` at the bottom of the stack.
pub open spec fn layout(stack: Seq<Frame>, levels: Seq<Level>, root: InputData) -> bool {
    &&& levels.len() > 0
    &&& levels[0].pos == 0
    &&& levels[0].input == root
    &&& root.optional_data is None
    &&& forall|j: int| 0 <= j < levels.len() ==> #[trigger] level_ok(stack, levels, j)
}

/// The number of frames that the level still has to see worked off: its own
/// output frame, and the frames of its options still to be explored.
pub open spec fn level_work(level: Level) -> nat {
    1 + branches_size(
        tokens_after(level.input),
        level.input.run().rest,
        level.input.choices(),
        level.pending,
    )
}

/// The number of frames still to be worked off.
pub open spec fn work(levels: Seq<Level>) -> nat
    decreases levels.len(),
{
    if levels.len() == 0 {
        0
    } else {
        work(levels.drop_last()) + level_work(levels.last())
    }
}

/// The chain after the input frame `input`, popped off the top, has left its
/// output frame at `pos`.
pub open spec fn expanded<'r, 'm, 's>(
    levels: Seq<Level<'r, 'm, 's>>,
    input: InputData<'r, 'm, 's>,
    pos: int,
) -> Seq<Level<'r, 'm, 's>> {
    let opened = Level { pos, input, pending: input.choices().len() as int };
    if levels.len() == 0 {
        seq![opened]
    } else {
        let last = levels.last();
        levels.drop_last().push(
            Level { pos: last.pos, input: last.input, pending: last.pending - 1 },
        ).push(opened)
    }
}

/// Every level, with its options still to be explored, stands below the
/// levels that follow it.
pub proof fn lemma_below(stack: Seq<Frame>, levels: Seq<Level>, root: InputData, j: int, m: int)
    requires
        layout(stack, levels, root),
        0 <= j < m < levels.len(),
    ensures
        levels[j].pos + levels[j].pending + 1 <= levels[m].pos,
    decreases m - j,
{
    assert(level_ok(stack, levels, j));
    if j + 1 < m {
        lemma_below(stack, levels, root, j + 1, m);
        assert(level_ok(stack, levels, j + 1));
    }
}

/// Every level, with its options still to be explored, stands below the
/// top of the stack.
pub proof fn lemma_positions(stack: Seq<Frame>, levels: Seq<Level>, root: InputData, j: int)
    requires
        layout(stack, levels, root),
        0 <= j < levels.len(),
    ensures
        levels[j].pos + levels[j].pending + 1 <= stack.len(),
        j + 1 < levels.len() ==> levels[j].pos + levels[j].pending + 1 <= levels.last().pos,
{
    let d = levels.len() - 1;
    assert(level_ok(stack, levels, d));
    if j < d {
        lemma_below(stack, levels, root, j, d);
    }
}

/// What the layout says of an output frame on top of the stack: it is the
/// last of the chain, none of its options is left to explore, and its parent,
/// if it has one, is the output frame of the level before it.
pub proof fn lemma_top_output(
    stack: Seq<Frame>,
    levels: Seq<Level>,
    root: InputData,
    output: OutputData,
)
    requires
        layout(stack, levels, root),
        stack.len() > 0,
        stack.last() == Frame::Output(output),
    ensures
        output.wf(),
        levels.last().pending == 0,
        levels.last().pos == stack.len() - 1,
        levels.len() == 1 <==> output.optional_data is None,
        levels.len() > 1 ==> {
            let parent = levels[levels.len() - 2];
            &&& output.optional_data matches Some(d)
            &&& d.parent_frame_index == parent.pos
            &&& parent.pos < stack.len() - 1
            &&& stack[parent.pos] is Output
        },
{
    let d = levels.len() - 1;
    let level = levels[d];
    assert(level_ok(stack, levels, d));
    if level.pending > 0 {
        let top = level.pending - 1;
        assert(spawned_by(stack[level.pos + 1 + top], level.input, top, level.pos));
    }
    if d > 0 {
        assert(level_ok(stack, levels, d - 1));
        lemma_positions(stack, levels, root, d - 1);
    }
}

/// What the layout says of an input frame on top of the stack: it stands
/// for the last of the options that the last level has still to explore.
pub proof fn lemma_top_input(
    stack: Seq<Frame>,
    levels: Seq<Level>,
    root: InputData,
    input: InputData,
)
    requires
        layout(stack, levels, root),
        stack.len() > 0,
        stack.last() == Frame::Input(input),
    ensures
        levels.last().pending > 0,
        spawned_by(
            Frame::Input(input),
            levels.last().input,
            levels.last().pending - 1,
            levels.last().pos,
        ),
{
    let d = levels.len() - 1;
    let level = levels[d];
    assert(level_ok(stack, levels, d));
    if level.pending > 0 {
        let top = level.pending - 1;
        assert(spawned_by(stack[level.pos + 1 + top], level.input, top, level.pos));
    }
}

/// The view of the tokens after the first `n` is the views after the first `n`.
pub proof fn lemma_views_skip(tokens: Seq<MatcherToken>, n: int)
    requires
        0 <= n <= tokens.len(),
    ensures
        token_views(tokens.skip(n)) =~= token_views(tokens).skip(n),
{
}

/// A freshly opened output frame holds the best of no option at all.
pub proof fn lemma_opened_holds_best(frame: Frame, input: InputData)
    requires
        opened_by(frame, input),
    ensures
        frame matches Frame::Output(o) && carries(o, input) && holds_best(
            o,
            input,
            input.choices().len() as int,
        ),
{
}

/// Working off an input frame keeps the layout and takes one frame off the
/// work that is left. `below` is the stack once the frame has been popped,
/// `after` the stack once it has been worked off.
pub proof fn lemma_expand(
    before: Seq<Frame>,
    below: Seq<Frame>,
    after: Seq<Frame>,
    levels: Seq<Level>,
    root: InputData,
    input: InputData,
)
    requires
        before.len() > 0,
        before.last() == Frame::Input(input),
        below == before.drop_last(),
        root.optional_data is None,
        levels.len() == 0 ==> before.len() == 1 && input == root,
        levels.len() > 0 ==> layout(before, levels, root),
        after.len() == below.len() + 1 + input.choices().len(),
        after.take(below.len() as int) == below,
        opened_by(after[below.len() as int], input),
        forall|j: int|
            0 <= j < input.choices().len() ==> spawned_by(
                #[trigger] after[below.len() + 1 + j],
                input,
                j,
                below.len() as int,
            ),
    ensures
        layout(after, expanded(levels, input, below.len() as int), root),
        work(expanded(levels, input, below.len() as int)) + 1 == if levels.len() == 0 {
            tree_size(token_views(root.tokens@), root.string@)
        } else {
            work(levels)
        },
{
    let pos = below.len() as int;
    let grown = expanded(levels, input, pos);
    let opened = Level { pos, input, pending: input.choices().len() as int };
    lemma_opened_holds_best(after[pos], input);
    assert(grown.last() == opened);
    let top = grown.len() - 1;
    assert(level_ok(after, grown, top)) by {
        assert forall|i: int| 0 <= i < opened.pending implies spawned_by(
            #[trigger] after[opened.pos + 1 + i],
            opened.input,
            i,
            opened.pos,
        ) by {
            assert(spawned_by(after[below.len() + 1 + i], input, i, below.len() as int));
        }
    }
    assert(level_work(opened) + 1 == tree_size(token_views(input.tokens@), input.string@));
    if levels.len() == 0 {
        assert(grown.drop_last() =~= Seq::empty());
        assert(work(grown) == work(grown.drop_last()) + level_work(opened));
    } else {
        let d = levels.len() - 1;
        let last = levels[d];
        let shrunk = Level { pos: last.pos, input: last.input, pending: last.pending - 1 };
        lemma_top_input(before, levels, root, input);
        assert(level_ok(before, levels, d));
        assert(grown[d] == shrunk);
        assert forall|j: int| 0 <= j < grown.len() implies #[trigger] level_ok(after, grown, j) by {
            if j < d {
                lemma_positions(before, levels, root, j);
                assert(level_ok(before, levels, j));
                assert(grown[j] == levels[j]);
                assert(grown[j + 1].pos == levels[j + 1].pos);
                assert(grown[j + 1].input == levels[j + 1].input);
                assert(after[levels[j].pos] == before[levels[j].pos]) by {
                    assert(after.take(pos)[levels[j].pos] == below[levels[j].pos]);
                }
                assert forall|i: int| 0 <= i < levels[j].pending implies spawned_by(
                    #[trigger] after[levels[j].pos + 1 + i],
                    levels[j].input,
                    i,
                    levels[j].pos,
                ) by {
                    assert(after.take(pos)[levels[j].pos + 1 + i] == below[levels[j].pos + 1 + i]);
                    assert(spawned_by(
                        before[levels[j].pos + 1 + i],
                        levels[j].input,
                        i,
                        levels[j].pos,
                    ));
                }
            } else if j == d {
                assert(after[last.pos] == before[last.pos]) by {
                    assert(after.take(pos)[last.pos] == below[last.pos]);
                }
                assert forall|i: int| 0 <= i < shrunk.pending implies spawned_by(
                    #[trigger] after[shrunk.pos + 1 + i],
                    shrunk.input,
                    i,
                    shrunk.pos,
                ) by {
                    assert(after.take(pos)[last.pos + 1 + i] == below[last.pos + 1 + i]);
                    assert(spawned_by(before[last.pos + 1 + i], last.input, i, last.pos));
                }
            } else {
            }
        }
        // the work that is left
        let k = last.input.run().pieces.len() as int;
        lemma_run_len(token_views(last.input.tokens@), last.input.string@);
        lemma_views_skip(last.input.tokens@, k + 1);
        assert(token_views(input.tokens@) == tokens_after(last.input));
        assert(level_work(last) == level_work(shrunk) + tree_size(
            token_views(input.tokens@),
            input.string@,
        ));
        assert(grown.drop_last() =~= levels.drop_last().push(shrunk));
        assert(grown.drop_last().drop_last() =~= levels.drop_last());
        assert(work(grown) == work(grown.drop_last()) + level_work(opened));
        assert(work(grown.drop_last()) == work(levels.drop_last()) + level_work(shrunk));
        assert(work(levels) == work(levels.drop_last()) + level_work(last));
    }
}

/// The steps of an output frame whose options have all been explored are
/// those of the best way through the tokens of its input frame, after the
/// option that the input frame stands for, if any.
pub proof fn lemma_settled(o: OutputData, input: InputData)
    requires
        carries(o, input),
        holds_best(o, input, 0),
    ensures
        ({
            let steps = o.matched_tokens@ + o.best_current_matched_tokens@;
            let way = search(token_views(input.tokens@), input.string@);
            let g = input.given();
            &&& steps.len() == g + way.len()
            &&& way.len() <= input.tokens@.len()
            &&& o.is_complete_match == (way.len() == input.tokens@.len())
            &&& input.optional_data matches Some(d) ==> steps[0] == d.chosen_option
            &&& forall|i: int|
                0 <= i < way.len() ==> *(#[trigger] steps[g + i]).0 == input.tokens@[i] && steps[g
                    + i].1@ == way[i]
        }),
{
    let views = token_views(input.tokens@);
    let steps = o.matched_tokens@ + o.best_current_matched_tokens@;
    let way = search(views, input.string@);
    let g = input.given();
    let k = input.run().pieces.len() as int;
    lemma_search_by_run(views, input.string@);
    lemma_search_len(views, input.string@);
    assert forall|i: int| 0 <= i < way.len() implies *(#[trigger] steps[g + i]).0
        == input.tokens@[i] && steps[g + i].1@ == way[i] by {
        if i < k {
            assert(steps[g + i] == o.matched_tokens@[g + i]);
        } else {
            assert(steps[g + i] == o.best_current_matched_tokens@[i - k]);
        }
    }
}

/// The steps that the root's output frame ends with are the result of the
/// search.
pub proof fn lemma_finish(
    stack: Seq<Frame>,
    levels: Seq<Level>,
    root: InputData,
    output: OutputData,
)
    requires
        layout(stack, levels, root),
        stack.len() > 0,
        stack.last() == Frame::Output(output),
        output.optional_data is None,
    ensures
        follows(
            output.matched_tokens@ + output.best_current_matched_tokens@,
            root.tokens@,
            search(token_views(root.tokens@), root.string@),
        ),
{
    lemma_top_output(stack, levels, root, output);
    assert(level_ok(stack, levels, 0));
    lemma_settled(output, root);
    let steps = output.matched_tokens@ + output.best_current_matched_tokens@;
    let way = search(token_views(root.tokens@), root.string@);
    assert forall|i: int| 0 <= i < steps.len() implies *(#[trigger] steps[i]).0 == root.tokens@[i]
        && steps[i].1@ == way[i] by {
        assert(steps[0 + i].1@ == way[i]);
    }
}

/// Working off an output frame that has a parent keeps the layout and takes
/// one frame off the work that is left. `after` is the stack once the frame
/// has been popped and has reported to its parent.
pub proof fn lemma_collapse(
    before: Seq<Frame>,
    after: Seq<Frame>,
    levels: Seq<Level>,
    root: InputData,
    output: OutputData,
)
    requires
        layout(before, levels, root),
        before.len() > 0,
        before.last() == Frame::Output(output),
        output.optional_data matches Some(d) && {
            let at = d.parent_frame_index as int;
            &&& after.len() == before.len() - 1
            &&& forall|i: int| 0 <= i < after.len() && i != at ==> after[i] == before[i]
            &&& 0 <= at < after.len()
            &&& after[at] matches Frame::Output(merged)
            &&& before[at] matches Frame::Output(parent)
            &&& reported_to(output, parent, merged)
        },
    ensures
        levels.len() > 1,
        layout(after, levels.drop_last(), root),
        work(levels.drop_last()) + 1 == work(levels),
{
    lemma_top_output(before, levels, root, output);
    let d = levels.len() - 1;
    let child = levels[d];
    let above = levels[d - 1];
    let at = above.pos;
    let fewer = levels.drop_last();
    assert(level_ok(before, levels, d));
    assert(level_ok(before, levels, d - 1));
    let parent = before[at]->Output_0;
    let merged = after[at]->Output_0;

    // what the child offers is the way through the option that it stands for
    lemma_settled(output, child.input);
    let steps = output.matched_tokens@ + output.best_current_matched_tokens@;
    let k = above.input.run().pieces.len() as int;
    let rest = tokens_after(above.input);
    let text = above.input.run().rest;
    let choices = above.input.choices();
    let n = above.pending;
    lemma_run_len(token_views(above.input.tokens@), above.input.string@);
    lemma_views_skip(above.input.tokens@, k + 1);
    assert(token_views(child.input.tokens@) == rest);
    let here = through_choice(rest, text, choices, n);
    let later = best_from(rest, text, choices, n + 1);
    let way = search(rest, text.skip(choices[n].len() as int));
    assert(here =~= seq![choices[n]] + way);
    assert(best_from(rest, text, choices, n) == if here.len() > later.len() {
        here
    } else {
        later
    });
    lemma_best_from_len(rest, text, choices, n + 1);
    assert(rest.len() == above.input.tokens@.len() - k - 1);
    assert(steps.len() == here.len());
    assert(replaces(
        output.is_complete_match,
        steps.len() as int,
        parent.is_complete_match,
        parent.best_current_matched_tokens_count as int,
    ) == (here.len() > later.len()));
    assert(holds_best(merged, above.input, n)) by {
        if here.len() > later.len() {
            assert forall|i: int| 0 <= i < here.len() implies *(
            #[trigger] merged.best_current_matched_tokens@[i]).0 == above.input.tokens@[k + i]
                && merged.best_current_matched_tokens@[i].1@ == here[i] by {
                if i > 0 {
                    assert(steps[1 + (i - 1)].1@ == way[i - 1]);
                    assert(child.input.tokens@[i - 1] == above.input.tokens@[k + 1 + (i - 1)]);
                }
            }
        }
    }
    assert(carries(merged, above.input));

    assert forall|j: int| 0 <= j < fewer.len() implies #[trigger] level_ok(after, fewer, j) by {
        lemma_positions(before, levels, root, j);
        assert(level_ok(before, levels, j));
        assert(fewer[j] == levels[j]);
        if j < d - 1 {
            lemma_below(before, levels, root, j, d - 1);
            assert(level_ok(before, levels, j + 1));
            assert(fewer[j + 1] == levels[j + 1]);
            assert(after[levels[j].pos] == before[levels[j].pos]);
            assert forall|i: int| 0 <= i < levels[j].pending implies spawned_by(
                #[trigger] after[levels[j].pos + 1 + i],
                levels[j].input,
                i,
                levels[j].pos,
            ) by {
                assert(spawned_by(
                    before[levels[j].pos + 1 + i],
                    levels[j].input,
                    i,
                    levels[j].pos,
                ));
            }
        } else {
            assert forall|i: int| 0 <= i < above.pending implies spawned_by(
                #[trigger] after[above.pos + 1 + i],
                above.input,
                i,
                above.pos,
            ) by {
                assert(spawned_by(before[above.pos + 1 + i], above.input, i, above.pos));
            }
        }
    }
    assert(level_work(child) == 1);
}

} // verus!
