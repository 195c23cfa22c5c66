//! What the two matchers guarantee, proved of the rules that their contracts
//! are stated in.

use vstd::prelude::*;
use vstd::utf8::*;
use crate::matcher::raised;
use crate::steps::follows;
use crate::rules::{
    after, best_from, first_match, greedy, lemma_matching_fits, matching, search, step,
    through_choice,
};
use crate::text::{lemma_boundary_after_prefix, lemma_encode_one};
use crate::token::{MatcherToken, TokenView};

verus! {

/// `piece` is something that `token` can consume at the front of `s`: a
/// literal itself, an alternation any of its options, a wildcard one
/// character.
pub open spec fn fits(token: TokenView, s: Seq<char>, piece: Seq<char>) -> bool {
    match token {
        TokenView::RawText(text) => piece == text && text.is_prefix_of(s),
        TokenView::OneOfText(options) => options.contains(piece) && piece.is_prefix_of(s),
        TokenView::WildCard => s.len() > 0 && piece == s.take(1),
    }
}

/// `way` is a way into the tokens: its pieces are consumed by the first
/// tokens, one by each, one after another at the front of `s`, with some
/// option chosen at every alternation.
pub open spec fn is_way(tokens: Seq<TokenView>, s: Seq<char>, way: Seq<Seq<char>>) -> bool
    decreases way.len(),
{
    way.len() == 0 || (tokens.len() > 0 && fits(tokens[0], s, way[0]) && is_way(
        tokens.drop_first(),
        s.skip(way[0].len() as int),
        way.drop_first(),
    ))
}

/// The pieces of a way, put together.
pub open spec fn consumed(way: Seq<Seq<char>>) -> Seq<char>
    decreases way.len(),
{
    if way.len() == 0 {
        Seq::empty()
    } else {
        way[0] + consumed(way.drop_first())
    }
}

/// The pieces of a way lie one behind the other at the front of the
/// candidate: together they are what the candidate begins with, and what
/// they leave is the candidate without them.
pub proof fn law_way_covers_the_front(tokens: Seq<TokenView>, s: Seq<char>, way: Seq<Seq<char>>)
    requires
        is_way(tokens, s, way),
    ensures
        consumed(way).is_prefix_of(s),
        after(s, way) == s.skip(consumed(way).len() as int),
    decreases way.len(),
{
    if way.len() == 0 {
        assert(s.skip(0) =~= s);
    } else {
        let s1 = s.skip(way[0].len() as int);
        law_way_covers_the_front(tokens.drop_first(), s1, way.drop_first());
        let more = consumed(way.drop_first());
        assert(way[0].is_prefix_of(s)) by {
            if let TokenView::WildCard = tokens[0] {
                assert(s.take(1).is_prefix_of(s));
            }
        }
        assert(s1.skip(more.len() as int) =~= s.skip(consumed(way).len() as int));
        assert(consumed(way) =~= s.subrange(0, consumed(way).len() as int));
    }
}

/// What a token consumes without a choice is something that it can consume.
pub proof fn lemma_step_fits(token: TokenView, s: Seq<char>)
    ensures
        step(token, s) matches Some(piece) ==> fits(token, s, piece),
{
    if let TokenView::OneOfText(options) = token {
        lemma_first_match(options, s);
    }
}

/// The first option that fits is the first of those that fit, and there is
/// one exactly where any fits.
pub proof fn lemma_first_match(options: Seq<Seq<char>>, s: Seq<char>)
    ensures
        match first_match(options, s) {
            Some(option) => options.contains(option) && option.is_prefix_of(s) && matching(
                options,
                s,
            ).len() > 0 && matching(options, s)[0] == option,
            None => matching(options, s).len() == 0,
        },
    decreases options.len(),
{
    if options.len() > 0 {
        let tail = options.drop_first();
        lemma_first_match(tail, s);
        lemma_matching_front(options, s);
        if options[0].is_prefix_of(s) {
            assert(options[0] == options[0]);
        } else if let Some(option) = first_match(tail, s) {
            let i = choose|i: int| 0 <= i < tail.len() && tail[i] == option;
            assert(options[i + 1] == option);
        }
    }
}

/// The options that fit, counted from the front: the first one if it fits,
/// then those of the others that fit.
pub proof fn lemma_matching_front(options: Seq<Seq<char>>, s: Seq<char>)
    requires
        options.len() > 0,
    ensures
        matching(options, s) =~= if options[0].is_prefix_of(s) {
            seq![options[0]] + matching(options.drop_first(), s)
        } else {
            matching(options.drop_first(), s)
        },
    decreases options.len(),
{
    if options.len() == 1 {
        assert(options.drop_first() =~= options.drop_last());
        assert(matching(options.drop_last(), s) =~= Seq::empty());
    } else {
        let front = options.drop_last();
        lemma_matching_front(front, s);
        assert(front.drop_first() =~= options.drop_first().drop_last());
        assert(options.drop_first().last() == options.last());
        assert(front[0] == options[0]);
    }
}

/// An option that fits is among those that `matching` keeps.
pub proof fn lemma_matching_keeps(options: Seq<Seq<char>>, s: Seq<char>, option: Seq<char>)
    requires
        options.contains(option),
        option.is_prefix_of(s),
    ensures
        matching(options, s).contains(option),
    decreases options.len(),
{
    let kept = matching(options, s);
    if options.last() == option {
        assert(kept[kept.len() - 1] == option);
    } else {
        let front = options.drop_last();
        let i = choose|i: int| 0 <= i < options.len() && options[i] == option;
        assert(front[i] == option);
        lemma_matching_keeps(front, s, option);
        let j = choose|j: int| 0 <= j < matching(front, s).len() && matching(front, s)[j] == option;
        assert(kept[j] == option);
    }
}

/// The single pass gets through the longest stretch of tokens that fit one
/// after another: every step is what its token consumes where the steps
/// before it have left off, and the pass ends with the tokens or at a token
/// that does not fit what is left.
pub proof fn law_greedy_stops_at_first_failure(tokens: Seq<TokenView>, s: Seq<char>)
    ensures
        greedy(tokens, s).len() <= tokens.len(),
        forall|i: int|
            0 <= i < greedy(tokens, s).len() ==> step(
                tokens[i],
                after(s, #[trigger] greedy(tokens, s).take(i)),
            ) == Some(greedy(tokens, s)[i]),
        greedy(tokens, s).len() == tokens.len() || step(
            tokens[greedy(tokens, s).len() as int],
            after(s, greedy(tokens, s)),
        ) is None,
    decreases tokens.len(),
{
    let pass = greedy(tokens, s);
    if tokens.len() > 0 {
        if let Some(piece) = step(tokens[0], s) {
            let tail = tokens.drop_first();
            let s1 = s.skip(piece.len() as int);
            let further = greedy(tail, s1);
            law_greedy_stops_at_first_failure(tail, s1);
            assert(pass.drop_first() =~= further);
            assert forall|i: int| 0 <= i < pass.len() implies step(
                tokens[i],
                after(s, #[trigger] pass.take(i)),
            ) == Some(pass[i]) by {
                if i > 0 {
                    assert(pass.take(i).drop_first() =~= further.take(i - 1));
                    assert(tokens[i] == tail[i - 1]);
                } else {
                    assert(pass.take(0) =~= Seq::empty());
                }
            }
            if pass.len() < tokens.len() {
                assert(tokens[pass.len() as int] == tail[further.len() as int]);
            }
        }
    }
}

/// The single pass is a way into the tokens.
pub proof fn law_greedy_is_a_way(tokens: Seq<TokenView>, s: Seq<char>)
    ensures
        is_way(tokens, s, greedy(tokens, s)),
    decreases tokens.len(),
{
    if tokens.len() > 0 {
        if let Some(piece) = step(tokens[0], s) {
            lemma_step_fits(tokens[0], s);
            law_greedy_is_a_way(tokens.drop_first(), s.skip(piece.len() as int));
            assert(greedy(tokens, s).drop_first() =~= greedy(
                tokens.drop_first(),
                s.skip(piece.len() as int),
            ));
        }
    }
}

/// The best way from a choice on is empty or goes through one of the
/// choices from there on, and is as long as the way through any of them.
pub proof fn lemma_best_from(
    rest: Seq<TokenView>,
    s: Seq<char>,
    choices: Seq<Seq<char>>,
    n: int,
)
    requires
        0 <= n <= choices.len(),
    ensures
        n == choices.len() ==> best_from(rest, s, choices, n).len() == 0,
        n < choices.len() ==> exists|m: int|
            n <= m < choices.len() && best_from(rest, s, choices, n) == #[trigger] through_choice(
                rest,
                s,
                choices,
                m,
            ),
        forall|m: int|
            n <= m < choices.len() ==> (#[trigger] through_choice(rest, s, choices, m)).len()
                <= best_from(rest, s, choices, n).len(),
    decreases choices.len() - n,
{
    if n < choices.len() {
        lemma_best_from(rest, s, choices, n + 1);
        let here = through_choice(rest, s, choices, n);
        let later = best_from(rest, s, choices, n + 1);
        assert(here.len() > 0);
        if here.len() > later.len() {
            assert(best_from(rest, s, choices, n) == through_choice(rest, s, choices, n));
        } else {
            let m = choose|m: int|
                n + 1 <= m < choices.len() && later == #[trigger] through_choice(
                    rest,
                    s,
                    choices,
                    m,
                );
            assert(best_from(rest, s, choices, n) == through_choice(rest, s, choices, m));
        }
    }
}

/// The result of the exhaustive search is a way into the tokens.
pub proof fn law_search_is_a_way(tokens: Seq<TokenView>, s: Seq<char>)
    ensures
        is_way(tokens, s, search(tokens, s)),
    decreases tokens.len(),
{
    let found = search(tokens, s);
    if tokens.len() > 0 {
        let tail = tokens.drop_first();
        match tokens[0] {
            TokenView::OneOfText(options) => {
                let choices = matching(options, s);
                lemma_best_from(tail, s, choices, 0);
                if choices.len() > 0 {
                    let m = choose|m: int|
                        0 <= m < choices.len() && best_from(tail, s, choices, 0)
                            == #[trigger] through_choice(tail, s, choices, m);
                    let s1 = s.skip(choices[m].len() as int);
                    lemma_matching_fits(options, s);
                    law_search_is_a_way(tail, s1);
                    assert(found =~= seq![choices[m]] + search(tail, s1));
                    assert(found.drop_first() =~= search(tail, s1));
                }
            },
            _ => {
                if let Some(piece) = step(tokens[0], s) {
                    let s1 = s.skip(piece.len() as int);
                    law_search_is_a_way(tail, s1);
                    assert(found.drop_first() =~= search(tail, s1));
                }
            },
        }
    }
}

/// No way into the tokens is longer than the result of the exhaustive
/// search.
pub proof fn law_search_is_longest(tokens: Seq<TokenView>, s: Seq<char>, way: Seq<Seq<char>>)
    requires
        is_way(tokens, s, way),
    ensures
        way.len() <= search(tokens, s).len(),
    decreases tokens.len(),
{
    if way.len() > 0 {
        let tail = tokens.drop_first();
        let s1 = s.skip(way[0].len() as int);
        law_search_is_longest(tail, s1, way.drop_first());
        match tokens[0] {
            TokenView::OneOfText(options) => {
                let choices = matching(options, s);
                lemma_matching_keeps(options, s, way[0]);
                let m = choose|m: int| 0 <= m < choices.len() && choices[m] == way[0];
                lemma_best_from(tail, s, choices, 0);
                assert(through_choice(tail, s, choices, m).len() == 1 + search(tail, s1).len());
            },
            _ => {},
        }
    }
}

/// The exhaustive search gets at least as far as the single pass.
pub proof fn law_exhaustive_dominates_greedy(tokens: Seq<TokenView>, s: Seq<char>)
    ensures
        search(tokens, s).len() >= greedy(tokens, s).len(),
{
    law_greedy_is_a_way(tokens, s);
    law_search_is_longest(tokens, s, greedy(tokens, s));
}

/// A wildcard consumes one whole character, however many bytes it takes:
/// the bytes of what it consumes are the bytes of that character, and they
/// end where a character of the candidate ends.
pub proof fn law_wildcard_takes_one_whole_character(s: Seq<char>)
    requires
        s.len() > 0,
    ensures
        step(TokenView::WildCard, s) == Some(seq![s[0]]),
        encode_utf8(seq![s[0]]) == encode_scalar(s[0] as u32),
        is_char_boundary(encode_utf8(s), encode_scalar(s[0] as u32).len() as int),
{
    assert(s.take(1) =~= seq![s[0]]);
    lemma_encode_one(s[0]);
    assert(s =~= seq![s[0]] + s.skip(1));
    lemma_boundary_after_prefix(seq![s[0]], s.skip(1));
}

/// The counter after match attempts that got through `lengths` tokens, one
/// after another, on a pattern fresh from compilation.
pub open spec fn counter_after(lengths: Seq<nat>) -> nat
    decreases lengths.len(),
{
    if lengths.len() == 0 {
        0
    } else {
        raised(counter_after(lengths.drop_last()), lengths.last())
    }
}

/// The counter never goes down from one match attempt to the next, and
/// after any number of them it is the greatest length that any has reached:
/// no attempt got further, and one got as far, if there was any.
pub proof fn law_counter_is_running_maximum(lengths: Seq<nat>)
    ensures
        lengths.len() > 0 ==> counter_after(lengths.drop_last()) <= counter_after(lengths),
        forall|i: int| 0 <= i < lengths.len() ==> lengths[i] <= counter_after(lengths),
        lengths.len() > 0 ==> exists|i: int|
            0 <= i < lengths.len() && lengths[i] == counter_after(lengths),
        lengths.len() == 0 ==> counter_after(lengths) == 0,
    decreases lengths.len(),
{
    if lengths.len() > 0 {
        let earlier = lengths.drop_last();
        law_counter_is_running_maximum(earlier);
        assert forall|i: int| 0 <= i < lengths.len() implies lengths[i] <= counter_after(
            lengths,
        ) by {
            if i < earlier.len() {
                assert(earlier[i] == lengths[i]);
            }
        }
        if lengths.last() > counter_after(earlier) || earlier.len() == 0 {
            assert(lengths[lengths.len() - 1] == counter_after(lengths));
        } else {
            let i = choose|i: int| 0 <= i < earlier.len() && earlier[i] == counter_after(earlier);
            assert(lengths[i] == counter_after(lengths));
        }
    }
}

/// Two match attempts of one kind with the same candidate on the same tokens
/// make the same steps: the steps follow from the tokens and the candidate
/// alone, and the counter, which is all that an attempt changes, has no part
/// in them.
pub proof fn law_same_candidate_same_steps(
    first: Seq<(&MatcherToken, &str)>,
    second: Seq<(&MatcherToken, &str)>,
    tokens: Seq<MatcherToken>,
    consumed: Seq<Seq<char>>,
)
    requires
        follows(first, tokens, consumed),
        follows(second, tokens, consumed),
    ensures
        first.len() == second.len(),
        forall|i: int|
            0 <= i < first.len() ==> *(#[trigger] first[i]).0 == *second[i].0 && first[i].1@
                == second[i].1@,
{
}

} // verus!
