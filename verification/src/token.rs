//! The elements of a compiled pattern and their mathematical model.

use vstd::prelude::*;

verus! {

/// One element of a compiled pattern.
#[derive(Debug, PartialEq, Eq)]
pub enum MatcherToken<'a> {
    /// Text without anything special: it matches itself.
    RawText(&'a str),
    /// One of several texts, written `(one|two|three)`: it matches any of them.
    OneOfText(Vec<&'a str>),
    /// Any single character, written `.`.
    WildCard,
}

/// The model of a token: its texts as character sequences.
pub enum TokenView {
    RawText(Seq<char>),
    OneOfText(Seq<Seq<char>>),
    WildCard,
}

/// The character sequences of a list of string slices.
pub open spec fn texts(options: Seq<&str>) -> Seq<Seq<char>> {
    Seq::new(options.len(), |i: int| options[i]@)
}

impl<'a> View for MatcherToken<'a> {
    type V = TokenView;

    open spec fn view(&self) -> TokenView {
        match self {
            MatcherToken::RawText(text) => TokenView::RawText(text@),
            MatcherToken::OneOfText(options) => TokenView::OneOfText(texts(options@)),
            MatcherToken::WildCard => TokenView::WildCard,
        }
    }
}

/// The models of a sequence of tokens.
pub open spec fn token_views(tokens: Seq<MatcherToken>) -> Seq<TokenView> {
    Seq::new(tokens.len(), |i: int| tokens[i]@)
}

} // verus!
