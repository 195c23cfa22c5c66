//! What it means to match: the rules of the pattern language, stated over the
//! models of tokens and strings.

use vstd::prelude::*;
use crate::token::TokenView;

verus! {

/// The first of `options`, in the order given, that `s` begins with.
pub open spec fn first_match(options: Seq<Seq<char>>, s: Seq<char>) -> Option<Seq<char>>
    decreases options.len(),
{
    if options.len() == 0 {
        None
    } else if options[0].is_prefix_of(s) {
        Some(options[0])
    } else {
        first_match(options.drop_first(), s)
    }
}

/// Those of `options` that `s` begins with, in the order given.
pub open spec fn matching(options: Seq<Seq<char>>, s: Seq<char>) -> Seq<Seq<char>>
    decreases options.len(),
{
    if options.len() == 0 {
        Seq::empty()
    } else if options.last().is_prefix_of(s) {
        matching(options.drop_last(), s).push(options.last())
    } else {
        matching(options.drop_last(), s)
    }
}

/// Every option that `matching` keeps is one of `options` and fits at the
/// front of `s`.
pub proof fn lemma_matching_fits(options: Seq<Seq<char>>, s: Seq<char>)
    ensures
        forall|k: int|
            0 <= k < matching(options, s).len() ==> (#[trigger] matching(
                options,
                s,
            )[k]).is_prefix_of(s) && options.contains(matching(options, s)[k]),
    decreases options.len(),
{
    if options.len() > 0 {
        let front = options.drop_last();
        lemma_matching_fits(front, s);
        assert forall|k: int| 0 <= k < matching(options, s).len() implies (#[trigger] matching(
            options,
            s,
        )[k]).is_prefix_of(s) && options.contains(matching(options, s)[k]) by {
            if k < matching(front, s).len() {
                let j = choose|j: int| 0 <= j < front.len() && front[j] == matching(front, s)[k];
                assert(options[j] == matching(options, s)[k]);
            } else {
                assert(options[options.len() - 1] == matching(options, s)[k]);
            }
        }
    }
}

/// What one token consumes at the front of `s` when no choice is left open:
/// a literal consumes itself, an alternation its first option that fits, a
/// wildcard one character. `None` where the token does not fit.
pub open spec fn step(token: TokenView, s: Seq<char>) -> Option<Seq<char>> {
    match token {
        TokenView::RawText(text) => if text.is_prefix_of(s) {
            Some(text)
        } else {
            None
        },
        TokenView::OneOfText(options) => first_match(options, s),
        TokenView::WildCard => if s.len() > 0 {
            Some(s.take(1))
        } else {
            None
        },
    }
}

/// The pieces of `s` that the tokens consume one after another in a single
/// pass that stops at the first token that does not fit.
pub open spec fn greedy(tokens: Seq<TokenView>, s: Seq<char>) -> Seq<Seq<char>>
    decreases tokens.len(),
{
    if tokens.len() == 0 {
        Seq::empty()
    } else {
        match step(tokens[0], s) {
            None => Seq::empty(),
            Some(piece) => seq![piece] + greedy(tokens.drop_first(), s.skip(piece.len() as int)),
        }
    }
}

/// The pieces of `s` consumed by the best way through the tokens, every
/// option of every alternation considered: the one that gets through the most
/// tokens, and of several that get equally far the one found first when the
/// options of each alternation are tried from the last to the first.
pub open spec fn search(tokens: Seq<TokenView>, s: Seq<char>) -> Seq<Seq<char>>
    decreases tokens.len(), 0nat,
{
    if tokens.len() == 0 {
        Seq::empty()
    } else {
        match tokens[0] {
            TokenView::OneOfText(options) => best_from(
                tokens.drop_first(),
                s,
                matching(options, s),
                0,
            ),
            _ => match step(tokens[0], s) {
                None => Seq::empty(),
                Some(piece) => seq![piece] + search(
                    tokens.drop_first(),
                    s.skip(piece.len() as int),
                ),
            },
        }
    }
}

/// The way through `rest` that starts with `choices[n]`.
pub open spec fn through_choice(
    rest: Seq<TokenView>,
    s: Seq<char>,
    choices: Seq<Seq<char>>,
    n: int,
) -> Seq<Seq<char>>
    recommends
        0 <= n < choices.len(),
    decreases rest.len(), 1nat,
{
    seq![choices[n]] + search(rest, s.skip(choices[n].len() as int))
}

/// The best way among those that start with one of `choices[n..]`, each
/// followed by the best way through `rest`. A later choice is kept unless an
/// earlier one gets strictly further.
pub open spec fn best_from(
    rest: Seq<TokenView>,
    s: Seq<char>,
    choices: Seq<Seq<char>>,
    n: int,
) -> Seq<Seq<char>>
    decreases rest.len(), 2nat + choices.len() - n,
{
    if n < 0 || n >= choices.len() {
        Seq::empty()
    } else {
        let later = best_from(rest, s, choices, n + 1);
        let here = through_choice(rest, s, choices, n);
        if here.len() > later.len() {
            here
        } else {
            later
        }
    }
}

/// The stretch of tokens at the front that leaves no choice open.
pub struct Run {
    /// The pieces consumed by the literals and wildcards of the stretch.
    pub pieces: Seq<Seq<char>>,
    /// What is left of the string after them.
    pub rest: Seq<char>,
}

/// The longest stretch of literals and wildcards at the front of `tokens`
/// that fit one after another at the front of `s`. It ends before the first
/// alternation, before the first token that does not fit, or with the tokens.
pub open spec fn run(tokens: Seq<TokenView>, s: Seq<char>) -> Run
    decreases tokens.len(),
{
    if tokens.len() == 0 || tokens[0] is OneOfText {
        Run { pieces: Seq::empty(), rest: s }
    } else {
        match step(tokens[0], s) {
            None => Run { pieces: Seq::empty(), rest: s },
            Some(piece) => {
                let after = run(tokens.drop_first(), s.skip(piece.len() as int));
                Run { pieces: seq![piece] + after.pieces, rest: after.rest }
            },
        }
    }
}

/// The options that fit where the run of `tokens` on `s` ends at an
/// alternation, in the order given; none where it ends otherwise.
pub open spec fn choices_after_run(tokens: Seq<TokenView>, s: Seq<char>) -> Seq<Seq<char>> {
    let r = run(tokens, s);
    let k = r.pieces.len() as int;
    if k < tokens.len() {
        match tokens[k] {
            TokenView::OneOfText(options) => matching(options, r.rest),
            _ => Seq::empty(),
        }
    } else {
        Seq::empty()
    }
}

/// A run is no longer than its tokens.
pub proof fn lemma_run_len(tokens: Seq<TokenView>, s: Seq<char>)
    ensures
        run(tokens, s).pieces.len() <= tokens.len(),
    decreases tokens.len(),
{
    if tokens.len() == 0 || tokens[0] is OneOfText {
    } else {
        match step(tokens[0], s) {
            None => {},
            Some(piece) => {
                lemma_run_len(tokens.drop_first(), s.skip(piece.len() as int));
            },
        }
    }
}

/// What is left of `s` after the given pieces have been taken off its front
/// one after another.
pub open spec fn after(s: Seq<char>, taken: Seq<Seq<char>>) -> Seq<char>
    decreases taken.len(),
{
    if taken.len() == 0 {
        s
    } else {
        after(s.skip(taken[0].len() as int), taken.drop_first())
    }
}

/// The best way through tokens never has more steps than there are tokens,
/// and the best way from a choice on never more than one for the choice and
/// one for each token after it.
pub proof fn lemma_search_len(tokens: Seq<TokenView>, s: Seq<char>)
    ensures
        search(tokens, s).len() <= tokens.len(),
    decreases tokens.len(), 0nat,
{
    if tokens.len() > 0 {
        match tokens[0] {
            TokenView::OneOfText(options) => {
                lemma_best_from_len(tokens.drop_first(), s, matching(options, s), 0);
            },
            _ => {
                if let Some(piece) = step(tokens[0], s) {
                    lemma_search_len(tokens.drop_first(), s.skip(piece.len() as int));
                }
            },
        }
    }
}

/// The same for the best way from a choice on.
pub proof fn lemma_best_from_len(
    rest: Seq<TokenView>,
    s: Seq<char>,
    choices: Seq<Seq<char>>,
    n: int,
)
    ensures
        best_from(rest, s, choices, n).len() <= rest.len() + 1,
    decreases rest.len(), 2nat + choices.len() - n,
{
    if 0 <= n < choices.len() {
        lemma_best_from_len(rest, s, choices, n + 1);
        lemma_search_len(rest, s.skip(choices[n].len() as int));
        assert(through_choice(rest, s, choices, n).len() == 1 + search(
            rest,
            s.skip(choices[n].len() as int),
        ).len());
    }
}

/// The best way through tokens begins with their run; where the run ends at
/// an alternation it goes on with the best way from the options that fit.
pub proof fn lemma_search_by_run(tokens: Seq<TokenView>, s: Seq<char>)
    ensures
        search(tokens, s) =~= run(tokens, s).pieces + best_from(
            tokens.skip(run(tokens, s).pieces.len() as int + 1),
            run(tokens, s).rest,
            choices_after_run(tokens, s),
            0,
        ),
    decreases tokens.len(),
{
    if tokens.len() == 0 {
    } else if tokens[0] is OneOfText {
        assert(tokens.skip(1) =~= tokens.drop_first());
    } else {
        match step(tokens[0], s) {
            None => {},
            Some(piece) => {
                let tail = tokens.drop_first();
                let s1 = s.skip(piece.len() as int);
                lemma_search_by_run(tail, s1);
                lemma_run_len(tail, s1);
                let k1 = run(tail, s1).pieces.len() as int;
                if k1 < tail.len() {
                    assert(tail.skip(k1 + 1) =~= tokens.skip(k1 + 2));
                    assert(tail[k1] == tokens[k1 + 1]);
                }
                assert(choices_after_run(tokens, s) == choices_after_run(tail, s1));
            },
        }
    }
}

/// The number of frames that the search of `tokens` on `s` works off: an
/// input frame and an output frame for the tokens themselves, and the frames
/// of every option that fits where their run ends at an alternation.
pub open spec fn tree_size(tokens: Seq<TokenView>, s: Seq<char>) -> nat
    decreases tokens.len(), 0nat,
{
    let r = run(tokens, s);
    let choices = choices_after_run(tokens, s);
    if choices.len() == 0 {
        2
    } else {
        2 + branches_size(
            tokens.skip(r.pieces.len() as int + 1),
            r.rest,
            choices,
            choices.len() as int,
        )
    }
}

/// The number of frames that the first `n` of `choices` take together.
pub open spec fn branches_size(
    rest: Seq<TokenView>,
    s: Seq<char>,
    choices: Seq<Seq<char>>,
    n: int,
) -> nat
    decreases rest.len(), 1nat + n,
{
    if n <= 0 || n > choices.len() {
        0
    } else {
        branches_size(rest, s, choices, n - 1) + tree_size(
            rest,
            s.skip(choices[n - 1].len() as int),
        )
    }
}

} // verus!
