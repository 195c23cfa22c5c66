//! The compiled pattern: compilation, the single-pass matcher, and the
//! exhaustive matcher.

use vstd::prelude::*;
use vstd::string::*;
use crate::grammar::{
    compiled, lemma_preceded_twice, literal_before, parse, parse_options, preceded_by,
};
use crate::frame::{Frame, InputData};
use crate::layout::{
    expanded, layout, lemma_collapse, lemma_expand, lemma_finish, lemma_top_output, level_ok, work,
    Level,
};
use crate::rules::{first_match, greedy, matching, search, step, tree_size};
use crate::steps::{extended, follows, pieces};
use crate::text::{
    find_either, first_of, lemma_first_of, split_after, split_first, starts_with, utf8_width,
};
use crate::token::{texts, token_views, MatcherToken, TokenView};

verus! {

/// A compiled pattern.
#[derive(Debug, PartialEq, Eq)]
pub struct Matcher<'a> {
    /// The text of the pattern.
    text: &'a str,
    /// The tokens that the text was compiled into.
    tokens: Vec<MatcherToken<'a>>,
    /// The most tokens that any match attempt has got through so far.
    most_tokens_matched: usize,
}

/// The model of a compiled pattern.
pub struct MatcherView {
    pub text: Seq<char>,
    pub tokens: Seq<TokenView>,
    pub most_tokens_matched: nat,
}

impl<'internal> View for Matcher<'internal> {
    type V = MatcherView;

    open spec fn view(&self) -> MatcherView {
        MatcherView {
            text: self.text()@,
            tokens: token_views(self.tokens()@),
            most_tokens_matched: self.most_tokens_matched() as nat,
        }
    }
}

/// The counter after a match attempt that got through `reached` tokens, where
/// it stood at `most` before: the greater of the two.
pub open spec fn raised(most: nat, reached: nat) -> nat {
    if reached > most {
        reached
    } else {
        most
    }
}

impl<'internal> Matcher<'internal> {
    /// The tokens are those that the text compiles into, and no match
    /// attempt has got through more tokens than there are.
    #[verifier::type_invariant]
    spec fn holds_compiled_text(&self) -> bool {
        &&& compiled(self.text@) == Some(token_views(self.tokens@))
        &&& self.most_tokens_matched <= self.tokens@.len()
    }

    /// The text of the pattern, in contracts.
    pub closed spec fn spec_text(&self) -> &'internal str {
        self.text
    }

    /// The tokens of the pattern, in contracts.
    pub closed spec fn spec_tokens(&self) -> &Vec<MatcherToken<'internal>> {
        &self.tokens
    }

    /// The counter of the pattern, in contracts.
    pub closed spec fn spec_most_tokens_matched(&self) -> usize {
        self.most_tokens_matched
    }

    /// The text that the pattern was compiled from.
    #[verifier::when_used_as_spec(spec_text)]
    pub fn text(&self) -> (text: &'internal str)
        ensures
            text == self.text(),
    {
        self.text
    }

    /// The tokens of the pattern: those that its text compiles into.
    #[verifier::when_used_as_spec(spec_tokens)]
    pub fn tokens(&self) -> (tokens: &Vec<MatcherToken<'internal>>)
        ensures
            tokens == self.tokens(),
            compiled(self.text()@) == Some(token_views(tokens@)),
    {
        proof {
            use_type_invariant(self);
        }
        &self.tokens
    }

    /// The most tokens that any match attempt on this pattern has got through
    /// so far: never more than the pattern has.
    #[verifier::when_used_as_spec(spec_most_tokens_matched)]
    pub fn most_tokens_matched(&self) -> (most: usize)
        ensures
            most == self.most_tokens_matched(),
            most <= self.tokens()@.len(),
    {
        proof {
            use_type_invariant(self);
        }
        self.most_tokens_matched
    }

    /// Compiles a pattern. Text up to the next `.` or `(` becomes a literal,
    /// a `.` a wildcard, and `(`, options separated by `|`, and `)` an
    /// alternation. Compilation fails where an alternation is not closed, has
    /// an empty option, or has only one option.
    pub fn new(text: &'internal str) -> (compiled_pattern: Option<Matcher<'internal>>)
        ensures
            match compiled(text@) {
                None => compiled_pattern is None,
                Some(tokens) => {
                    &&& compiled_pattern matches Some(matcher)
                    &&& matcher.text() == text
                    &&& matcher@.tokens == tokens
                    &&& matcher.most_tokens_matched() == 0
                },
            },
    {
        let mut unparsed_text = text;
        let mut tokens: Vec<MatcherToken<'internal>> = Vec::new();
        let mut scanning = true;
        proof {
            if let Some(all) = parse(text@) {
                assert(token_views(tokens@) + all =~= all);
            }
        }
        while scanning
            invariant
                parse(text@) == preceded_by(token_views(tokens@), parse(unparsed_text@)),
                !scanning ==> first_of(unparsed_text@, '.', '(') == unparsed_text@.len(),
            decreases unparsed_text@.len() + if scanning { 1int } else { 0int },
        {
            let ghost before = token_views(tokens@);
            let ghost s = unparsed_text@;
            let ghost k = first_of(s, '.', '(');
            proof {
                lemma_first_of(s, '.', '(');
            }
            match find_either(unparsed_text, '.', '(') {
                None => {
                    scanning = false;
                },
                Some(dot_paren_index) => {
                    let (raw_text, rest) = split_after(unparsed_text, dot_paren_index, Ghost(k));
                    if !raw_text.is_empty() {
                        tokens.push(MatcherToken::RawText(raw_text));
                    }
                    proof {
                        assert(token_views(tokens@) =~= before + literal_before(s, k));
                    }
                    let (delimiter, rest) = split_first(rest);
                    proof {
                        assert(rest@ =~= s.skip(k + 1));
                    }
                    if delimiter == '.' {
                        tokens.push(MatcherToken::WildCard);
                        unparsed_text = rest;
                        proof {
                            assert(token_views(tokens@) =~= before + literal_before(s, k).push(
                                TokenView::WildCard,
                            ));
                            lemma_preceded_twice(
                                before,
                                literal_before(s, k).push(TokenView::WildCard),
                                parse(rest@),
                            );
                        }
                    } else {
                        unparsed_text = rest;
                        let mut options: Vec<&'internal str> = Vec::new();
                        let mut found_a_pipe = false;
                        let mut closed = false;
                        let ghost outside = token_views(tokens@);
                        proof {
                            assert(texts(options@) =~= Seq::empty());
                            lemma_preceded_twice(
                                before,
                                literal_before(s, k),
                                parse_options(rest@, Seq::empty()),
                            );
                        }
                        while !closed
                            invariant
                                outside == token_views(tokens@),
                                found_a_pipe == (options@.len() > 0),
                                unparsed_text@.len() < s.len(),
                                !closed ==> parse(text@) == preceded_by(
                                    outside,
                                    parse_options(unparsed_text@, texts(options@)),
                                ),
                                closed ==> parse(text@) == preceded_by(
                                    outside.push(TokenView::OneOfText(texts(options@))),
                                    parse(unparsed_text@),
                                ),
                            decreases unparsed_text@.len() + if closed { 0int } else { 1int },
                        {
                            let ghost t = unparsed_text@;
                            let ghost j = first_of(t, '|', ')');
                            let ghost seen = texts(options@);
                            proof {
                                lemma_first_of(t, '|', ')');
                            }
                            match find_either(unparsed_text, '|', ')') {
                                None => {
                                    return None;
                                },
                                Some(pipe_paren_index) => {
                                    let (option, rest) = split_after(
                                        unparsed_text,
                                        pipe_paren_index,
                                        Ghost(j),
                                    );
                                    let (delimiter, rest) = split_first(rest);
                                    proof {
                                        assert(rest@ =~= t.skip(j + 1));
                                    }
                                    if option.is_empty() {
                                        return None;
                                    }
                                    if delimiter == '|' {
                                        options.push(option);
                                        found_a_pipe = true;
                                        unparsed_text = rest;
                                        proof {
                                            assert(texts(options@) =~= seen.push(t.take(j)));
                                        }
                                    } else {
                                        if !found_a_pipe {
                                            return None;
                                        }
                                        options.push(option);
                                        unparsed_text = rest;
                                        closed = true;
                                        proof {
                                            assert(texts(options@) =~= seen.push(t.take(j)));
                                            lemma_preceded_twice(
                                                outside,
                                                seq![TokenView::OneOfText(texts(options@))],
                                                parse(rest@),
                                            );
                                            assert(outside + seq![
                                                TokenView::OneOfText(texts(options@)),
                                            ] =~= outside.push(
                                                TokenView::OneOfText(texts(options@)),
                                            ));
                                        }
                                    }
                                },
                            }
                        }
                        proof {
                            assert(token_views(tokens@.push(MatcherToken::OneOfText(options)))
                                =~= outside.push(TokenView::OneOfText(texts(options@))));
                        }
                        tokens.push(MatcherToken::OneOfText(options));
                    }
                },
            }
        }

        let ghost before = token_views(tokens@);
        proof {
            assert(parse(unparsed_text@) == Some(
                literal_before(unparsed_text@, unparsed_text@.len() as int),
            ));
            assert(unparsed_text@.take(unparsed_text@.len() as int) =~= unparsed_text@);
        }
        if !unparsed_text.is_empty() || tokens.len() == 0 {
            tokens.push(MatcherToken::RawText(unparsed_text));
            proof {
                assert(token_views(tokens@) =~= before.push(TokenView::RawText(unparsed_text@)));
                if unparsed_text@.len() > 0 {
                    assert(before.push(TokenView::RawText(unparsed_text@)) =~= before
                        + literal_before(unparsed_text@, unparsed_text@.len() as int));
                } else {
                    assert(before =~= Seq::empty());
                    assert(unparsed_text@ =~= Seq::empty());
                    assert(before + literal_before(unparsed_text@, 0) =~= Seq::empty());
                    assert(token_views(tokens@) =~= seq![TokenView::RawText(Seq::empty())]);
                }
            }
        } else {
            proof {
                assert(before + literal_before(unparsed_text@, 0) =~= before);
            }
        }

        Some(Matcher { text, tokens, most_tokens_matched: 0 })
    }

    /// Matches `string` against the pattern in one pass: every token takes
    /// what it can at the front of what is left, an alternation its first
    /// option that fits, and the pass ends at the first token that does not
    /// fit. The steps made are returned, and counted towards
    /// `most_tokens_matched`.
    pub fn match_string<'a, 'b>(&'a mut self, string: &'b str) -> (result: Vec<
        (&'a MatcherToken<'internal>, &'b str),
    >)
        ensures
            follows(result@, old(self).tokens()@, greedy(old(self)@.tokens, string@)),
            final(self).text() == old(self).text(),
            final(self).tokens() == old(self).tokens(),
            final(self).most_tokens_matched() == raised(
                old(self).most_tokens_matched() as nat,
                result@.len(),
            ),
    {
        let mut matched_tokens: Vec<(&'a MatcherToken<'internal>, &'b str)> = Vec::new();
        let mut string = string;
        let ghost start = string@;
        let ghost views = token_views(self.tokens@);
        let mut index: usize = 0;
        let mut walking = true;
        proof {
            assert(views.skip(0) =~= views);
            assert(pieces(matched_tokens@) =~= Seq::empty());
        }
        while walking && index < self.tokens.len()
            invariant
                *self == *old(self),
                views == token_views(self.tokens@),
                0 <= index <= self.tokens@.len(),
                matched_tokens@.len() == index,
                forall|i: int|
                    0 <= i < index ==> *(#[trigger] matched_tokens@[i]).0 == self.tokens@[i],
                greedy(views, start) =~= pieces(matched_tokens@) + greedy(
                    views.skip(index as int),
                    string@,
                ),
                !walking ==> greedy(views.skip(index as int), string@).len() == 0,
            decreases self.tokens@.len() - index + if walking { 1int } else { 0int },
        {
            let token = &self.tokens[index];
            let ghost before = matched_tokens@;
            let ghost here = views.skip(index as int);
            let ghost text_before = string@;
            proof {
                assert(here[0] == token@);
                assert(here.drop_first() =~= views.skip(index + 1));
            }
            let fits = match token {
                MatcherToken::RawText(text) => Self::match_raw_text(
                    text,
                    token,
                    &mut matched_tokens,
                    &mut string,
                ),
                MatcherToken::OneOfText(options) => Self::match_one_of_text(
                    options,
                    token,
                    &mut matched_tokens,
                    &mut string,
                ),
                MatcherToken::WildCard => Self::match_wild_card(
                    token,
                    &mut matched_tokens,
                    &mut string,
                ),
            };
            if fits {
                proof {
                    assert(step(here[0], text_before) == Some(matched_tokens@.last().1@));
                    assert(pieces(matched_tokens@) =~= pieces(before).push(
                        matched_tokens@.last().1@,
                    ));
                    assert forall|i: int| 0 <= i < index + 1 implies *(
                    #[trigger] matched_tokens@[i]).0 == self.tokens@[i] by {
                        if i < index {
                            assert(matched_tokens@[i] == matched_tokens@.drop_last()[i]);
                        }
                    }
                }
                index += 1;
            } else {
                walking = false;
            }
        }
        proof {
            if walking {
                assert(views.skip(index as int).len() == 0);
            }
            assert(greedy(views, start) =~= pieces(matched_tokens@));
        }

        proof {
            use_type_invariant(&*self);
        }
        if matched_tokens.len() > self.most_tokens_matched {
            self.most_tokens_matched = matched_tokens.len();
        }
        matched_tokens
    }

    /// Matches `string` against the pattern with every option of every
    /// alternation considered, and returns the steps of the way that gets
    /// through the most tokens; they are counted towards
    /// `most_tokens_matched`. The search runs depth first on a stack of
    /// frames of its own, so that its depth is not bounded by the call stack.
    pub fn match_string_exhaustive<'a, 'b>(&'a mut self, string: &'b str) -> (result: Vec<
        (&'a MatcherToken<'internal>, &'b str),
    >)
        ensures
            follows(result@, old(self).tokens()@, search(old(self)@.tokens, string@)),
            final(self).text() == old(self).text(),
            final(self).tokens() == old(self).tokens(),
            final(self).most_tokens_matched() == raised(
                old(self).most_tokens_matched() as nat,
                result@.len(),
            ),
    {
        let root_frame = InputData { tokens: self.tokens.as_slice(), string, optional_data: None };
        let ghost root = root_frame;
        let mut stack = vec![Frame::Input(root_frame)];
        let ghost mut levels: Seq<Level> = Seq::empty();

        loop
            invariant
                *self == *old(self),
                root.tokens@ == self.tokens@,
                root.string@ == string@,
                root.optional_data is None,
                levels.len() == 0 ==> stack@.len() == 1 && stack@[0] == Frame::Input(root),
                levels.len() > 0 ==> layout(stack@, levels, root),
            decreases
                    if levels.len() == 0 {
                        tree_size(token_views(root.tokens@), root.string@)
                    } else {
                        work(levels)
                    },
        {
            let ghost before = stack@;
            match stack.pop() {
                Some(Frame::Input(input_data)) => {
                    let ghost input = input_data;
                    let ghost below = stack@;
                    Self::process_input_frame(input_data, &mut stack);
                    proof {
                        assert(below =~= before.drop_last());
                        lemma_expand(before, below, stack@, levels, root, input);
                        levels = expanded(levels, input, below.len() as int);
                    }
                },
                Some(Frame::Output(output_data)) => {
                    let ghost output = output_data;
                    proof {
                        lemma_top_output(before, levels, root, output);
                    }
                    if let Some(matched_tokens) = Self::process_output_frame(
                        output_data,
                        &mut stack,
                    ) {
                        proof {
                            lemma_finish(before, levels, root, output);
                            use_type_invariant(&*self);
                        }
                        if matched_tokens.len() > self.most_tokens_matched {
                            self.most_tokens_matched = matched_tokens.len();
                        }
                        return matched_tokens;
                    }
                    proof {
                        lemma_collapse(before, stack@, levels, root, output);
                        levels = levels.drop_last();
                    }
                },
                None => {
                    // the stack always holds the root's frame
                    proof {
                        if levels.len() > 0 {
                            assert(level_ok(before, levels, 0));
                        }
                        assert(false);
                    }
                    return Vec::new();
                },
            }
        }
    }

    /// Matches a literal at the front of `string`: where `string` begins with
    /// `text`, the step is recorded and `string` moves past it.
    pub fn match_raw_text<'a, 'b, 'c, 'd, 'e, 'f>(
        text: &'a str,
        token: &'b MatcherToken<'c>,
        matched_tokens: &'d mut Vec<(&'b MatcherToken<'c>, &'e str)>,
        string: &'f mut &'e str,
    ) -> (matched: bool)
        ensures
            matched == text@.is_prefix_of(old(string)@),
            matched ==> final(string)@ == old(string)@.skip(text@.len() as int) && extended(
                old(matched_tokens)@,
                final(matched_tokens)@,
                token,
                text@,
            ),
            !matched ==> *final(string) == *old(string) && *final(matched_tokens) == *old(
                matched_tokens,
            ),
    {
        if starts_with(*string, text) {
            let n = text.as_bytes().len();
            assert(string@.take(text@.len() as int) =~= text@);
            let (head, tail) = split_after(*string, n, Ghost(text@.len() as int));
            matched_tokens.push((token, head));
            *string = tail;
            true
        } else {
            false
        }
    }

    /// Matches an alternation at the front of `string` without looking back:
    /// the first of `options` that `string` begins with is taken, the step is
    /// recorded and `string` moves past it.
    pub fn match_one_of_text<'a, 'b, 'c, 'd, 'e, 'f>(
        options: &'a Vec<&'b str>,
        token: &'c MatcherToken<'b>,
        matched_tokens: &'d mut Vec<(&'c MatcherToken<'b>, &'e str)>,
        string: &'f mut &'e str,
    ) -> (matched: bool)
        ensures
            matched == first_match(texts(options@), old(string)@).is_some(),
            matched ==> {
                let piece = first_match(texts(options@), old(string)@).unwrap();
                &&& final(string)@ == old(string)@.skip(piece.len() as int)
                &&& extended(old(matched_tokens)@, final(matched_tokens)@, token, piece)
            },
            !matched ==> *final(string) == *old(string) && *final(matched_tokens) == *old(
                matched_tokens,
            ),
    {
        let ghost all = texts(options@);
        let mut i: usize = 0;
        assert(all.skip(0) =~= all);
        while i < options.len()
            invariant
                0 <= i <= options.len(),
                all == texts(options@),
                *string == *old(string),
                *matched_tokens == *old(matched_tokens),
                first_match(all, string@) == first_match(all.skip(i as int), string@),
            decreases options.len() - i,
        {
            let option: &str = options[i];
            proof {
                assert(all.skip(i as int)[0] == option@);
                assert(all.skip(i as int).drop_first() =~= all.skip(i + 1));
            }
            if starts_with(*string, option) {
                let n = option.as_bytes().len();
                assert(string@.take(option@.len() as int) =~= option@);
                let (head, tail) = split_after(*string, n, Ghost(option@.len() as int));
                matched_tokens.push((token, head));
                *string = tail;
                return true;
            }
            i += 1;
        }
        false
    }

    /// Lists the ways an alternation can match at the front of `string`: one
    /// entry for each of `options` that `string` begins with, in the order
    /// given, each with the alternation's position and token.
    pub fn match_one_of_text_exhaustive<'a, 'b, 'c>(
        options: &'a Vec<&'b str>,
        token: &'c MatcherToken<'b>,
        index: usize,
        string: &'a str,
    ) -> (found: Vec<(usize, &'c MatcherToken<'b>, &'b str)>)
        ensures
            found@.len() == matching(texts(options@), string@).len(),
            forall|k: int|
                0 <= k < found@.len() ==> (#[trigger] found@[k]).0 == index && found@[k].1 == token
                    && found@[k].2@ == matching(texts(options@), string@)[k],
    {
        let ghost all = texts(options@);
        let mut found: Vec<(usize, &'c MatcherToken<'b>, &'b str)> = Vec::new();
        let mut i: usize = 0;
        while i < options.len()
            invariant
                0 <= i <= options.len(),
                all == texts(options@),
                found@.len() == matching(all.take(i as int), string@).len(),
                forall|k: int|
                    0 <= k < found@.len() ==> (#[trigger] found@[k]).0 == index && found@[k].1
                        == token && found@[k].2@ == matching(all.take(i as int), string@)[k],
            decreases options.len() - i,
        {
            let option: &'b str = options[i];
            proof {
                assert(all.take(i + 1).last() == option@);
                assert(all.take(i + 1).drop_last() =~= all.take(i as int));
            }
            if starts_with(string, option) {
                found.push((index, token, option));
            }
            i += 1;
        }
        proof {
            assert(all.take(i as int) =~= all);
        }
        found
    }

    /// Matches a wildcard at the front of `string`: where a character is
    /// left, the step is recorded with exactly that character, however many
    /// bytes it takes, and `string` moves past it.
    pub fn match_wild_card<'a, 'b, 'c, 'd, 'e>(
        token: &'a MatcherToken<'b>,
        matched_tokens: &'c mut Vec<(&'a MatcherToken<'b>, &'d str)>,
        string: &'e mut &'d str,
    ) -> (matched: bool)
        ensures
            matched == (old(string)@.len() > 0),
            matched ==> final(string)@ == old(string)@.skip(1) && extended(
                old(matched_tokens)@,
                final(matched_tokens)@,
                token,
                old(string)@.take(1),
            ),
            !matched ==> *final(string) == *old(string) && *final(matched_tokens) == *old(
                matched_tokens,
            ),
    {
        if string.is_empty() {
            false
        } else {
            let c = string.get_char(0);
            let n = utf8_width(c);
            assert(string@.take(1) =~= seq![c]);
            let (head, tail) = split_after(*string, n, Ghost(1));
            matched_tokens.push((token, head));
            *string = tail;
            true
        }
    }
}

} // verus!
