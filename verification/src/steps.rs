//! Lists of steps: what a match attempt returns.

use vstd::prelude::*;
use crate::token::MatcherToken;

verus! {

/// The consumed parts of a list of steps, as character sequences.
pub open spec fn pieces(steps: Seq<(&MatcherToken, &str)>) -> Seq<Seq<char>> {
    Seq::new(steps.len(), |i: int| steps[i].1@)
}

/// `after` is `before` with one more step: `token`, having consumed `piece`.
pub open spec fn extended(
    before: Seq<(&MatcherToken, &str)>,
    after: Seq<(&MatcherToken, &str)>,
    token: &MatcherToken,
    piece: Seq<char>,
) -> bool {
    &&& after.len() == before.len() + 1
    &&& after.drop_last() =~= before
    &&& after.last().0 == token
    &&& after.last().1@ == piece
}

/// `steps` goes through the first of `tokens`, one step for each, and has
/// consumed `consumed`.
pub open spec fn follows(
    steps: Seq<(&MatcherToken, &str)>,
    tokens: Seq<MatcherToken>,
    consumed: Seq<Seq<char>>,
) -> bool {
    &&& steps.len() == consumed.len()
    &&& steps.len() <= tokens.len()
    &&& forall|i: int|
        0 <= i < steps.len() ==> *(#[trigger] steps[i]).0 == tokens[i] && steps[i].1@ == consumed[i]
}

} // verus!
