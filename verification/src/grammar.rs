//! The pattern language: which token sequence a pattern text stands for.
//!
//! Text up to the next `.` or `(` is a literal. A `.` is a wildcard. A `(`
//! opens an alternation, whose options are separated by `|` and closed by
//! `)`: at least two options, none of them empty. There is no way to write a
//! literal `.` or `(`.

use vstd::prelude::*;
use crate::text::{first_of, lemma_first_of};
use crate::token::TokenView;

verus! {

/// `tokens` followed by what `rest` holds, where it holds anything.
pub open spec fn preceded_by(tokens: Seq<TokenView>, rest: Option<Seq<TokenView>>) -> Option<
    Seq<TokenView>,
> {
    match rest {
        None => None,
        Some(more) => Some(tokens + more),
    }
}

/// The literal that the first `k` characters of `s` make: none where `k` is 0.
pub open spec fn literal_before(s: Seq<char>, k: int) -> Seq<TokenView> {
    if k > 0 {
        seq![TokenView::RawText(s.take(k))]
    } else {
        Seq::empty()
    }
}

/// The tokens that `s` stands for, read from outside any alternation; `None`
/// where an alternation in `s` is malformed.
pub open spec fn parse(s: Seq<char>) -> Option<Seq<TokenView>>
    decreases s.len(), 1nat,
{
    let k = first_of(s, '.', '(');
    if !(0 <= k < s.len()) {
        Some(literal_before(s, s.len() as int))
    } else if s[k] == '.' {
        preceded_by(literal_before(s, k).push(TokenView::WildCard), parse(s.skip(k + 1)))
    } else {
        preceded_by(literal_before(s, k), parse_options(s.skip(k + 1), Seq::empty()))
    }
}

/// The tokens that `s` stands for, read from inside an alternation of which
/// the options `seen` have been read, each of them closed by a `|`. The
/// alternation is malformed where `s` has no `)`, where an option is empty,
/// and where the `)` closes the only option.
pub open spec fn parse_options(s: Seq<char>, seen: Seq<Seq<char>>) -> Option<Seq<TokenView>>
    decreases s.len(), 0nat,
{
    let k = first_of(s, '|', ')');
    if !(0 < k < s.len()) {
        None
    } else if s[k] == '|' {
        parse_options(s.skip(k + 1), seen.push(s.take(k)))
    } else if seen.len() == 0 {
        None
    } else {
        preceded_by(seq![TokenView::OneOfText(seen.push(s.take(k)))], parse(s.skip(k + 1)))
    }
}

/// The tokens of the pattern `s`: those that `s` stands for, and one empty
/// literal where it stands for none, so that a pattern always has a token.
pub open spec fn compiled(s: Seq<char>) -> Option<Seq<TokenView>> {
    match parse(s) {
        None => None,
        Some(tokens) => if tokens.len() == 0 {
            Some(seq![TokenView::RawText(Seq::empty())])
        } else {
            Some(tokens)
        },
    }
}

/// Putting `first` and then `second` before `rest` is putting `first` before
/// what `second` makes of `rest`.
pub proof fn lemma_preceded_twice(
    first: Seq<TokenView>,
    second: Seq<TokenView>,
    rest: Option<Seq<TokenView>>,
)
    ensures
        preceded_by(first, preceded_by(second, rest)) == preceded_by(first + second, rest),
{
    if let Some(more) = rest {
        assert(first + (second + more) =~= (first + second) + more);
    }
}

/// The options of an alternation as they are written: one after another,
/// with a `|` between any two.
pub open spec fn joined(options: Seq<Seq<char>>) -> Seq<char>
    decreases options.len(),
{
    if options.len() == 0 {
        Seq::empty()
    } else if options.len() == 1 {
        options[0]
    } else {
        joined(options.drop_last()) + seq!['|'] + options.last()
    }
}

/// A token as it is written in a pattern.
pub open spec fn written_token(token: TokenView) -> Seq<char> {
    match token {
        TokenView::RawText(text) => text,
        TokenView::OneOfText(options) => seq!['('] + joined(options) + seq![')'],
        TokenView::WildCard => seq!['.'],
    }
}

/// Tokens as they are written in a pattern, one after another.
pub open spec fn written(tokens: Seq<TokenView>) -> Seq<char>
    decreases tokens.len(),
{
    if tokens.len() == 0 {
        Seq::empty()
    } else {
        written_token(tokens[0]) + written(tokens.drop_first())
    }
}

/// Neither `a` nor `b` occurs in `text`.
pub open spec fn plain(text: Seq<char>, a: char, b: char) -> bool {
    forall|i: int| 0 <= i < text.len() ==> (#[trigger] text[i]) != a && text[i] != b
}

/// A token as compilation makes it: a literal is not empty and holds
/// neither `.` nor `(`; an alternation has at least two options, none of
/// them empty, none of them holding `|` or `)`.
pub open spec fn well_formed(token: TokenView) -> bool {
    match token {
        TokenView::RawText(text) => text.len() > 0 && plain(text, '.', '('),
        TokenView::OneOfText(options) => options.len() >= 2 && forall|i: int|
            0 <= i < options.len() ==> (#[trigger] options[i]).len() > 0 && plain(
                options[i],
                '|',
                ')',
            ),
        TokenView::WildCard => true,
    }
}

/// Tokens as compilation makes them: each well formed, and no literal next
/// to another.
pub open spec fn canonical(tokens: Seq<TokenView>) -> bool {
    &&& forall|i: int| 0 <= i < tokens.len() ==> well_formed(#[trigger] tokens[i])
    &&& forall|i: int|
        0 <= i < tokens.len() - 1 ==> !((#[trigger] tokens[i]) is RawText && tokens[i
            + 1] is RawText)
}

/// One token alone is written as that token.
pub proof fn lemma_written_one(token: TokenView)
    ensures
        written(seq![token]) =~= written_token(token),
{
    reveal_with_fuel(written, 2);
    assert(seq![token].drop_first() =~= Seq::<TokenView>::empty());
}

/// Writing tokens one after another is writing the first ones and then the
/// others.
pub proof fn lemma_written_concat(first: Seq<TokenView>, second: Seq<TokenView>)
    ensures
        written(first + second) =~= written(first) + written(second),
    decreases first.len(),
{
    if first.len() == 0 {
        assert(first + second =~= second);
    } else {
        assert((first + second).drop_first() =~= first.drop_first() + second);
        lemma_written_concat(first.drop_first(), second);
    }
}

/// What `parse` and `parse_options` make of a text is that text when it is
/// written again: from inside an alternation, the text after the bracket
/// and the options seen.
pub proof fn lemma_parse_written(s: Seq<char>)
    ensures
        parse(s) matches Some(tokens) ==> written(tokens) =~= s,
    decreases s.len(), 1nat,
{
    let k = first_of(s, '.', '(');
    lemma_first_of(s, '.', '(');
    if !(0 <= k < s.len()) {
        lemma_literal_written(s, s.len() as int);
        assert(s.take(s.len() as int) =~= s);
    } else if s[k] == '.' {
        if let Some(more) = parse(s.skip(k + 1)) {
            let front = literal_before(s, k).push(TokenView::WildCard);
            lemma_parse_written(s.skip(k + 1));
            lemma_written_concat(front, more);
            lemma_written_concat(literal_before(s, k), seq![TokenView::WildCard]);
            assert(front =~= literal_before(s, k) + seq![TokenView::WildCard]);
            lemma_written_one(TokenView::WildCard);
            lemma_literal_written(s, k);
            assert(s =~= s.take(k) + seq!['.'] + s.skip(k + 1));
        }
    } else {
        if let Some(more) = parse_options(s.skip(k + 1), Seq::empty()) {
            lemma_options_written(s.skip(k + 1), Seq::empty());
            lemma_written_concat(literal_before(s, k), more);
            lemma_literal_written(s, k);
            assert(joined(Seq::<Seq<char>>::empty()) =~= Seq::empty());
            assert(s =~= s.take(k) + seq!['('] + s.skip(k + 1));
        }
    }
}

/// The literal before a delimiter is written as the text before it.
pub proof fn lemma_literal_written(s: Seq<char>, k: int)
    requires
        0 <= k <= s.len(),
    ensures
        written(literal_before(s, k)) =~= s.take(k),
{
    if k > 0 {
        lemma_written_one(TokenView::RawText(s.take(k)));
    }
}

/// The same from inside an alternation: what `parse_options` makes is
/// written as the bracket, the options seen, and the text.
pub proof fn lemma_options_written(s: Seq<char>, seen: Seq<Seq<char>>)
    ensures
        parse_options(s, seen) matches Some(tokens) ==> written(tokens) =~= seq!['('] + joined(
            seen,
        ) + (if seen.len() > 0 {
            seq!['|']
        } else {
            Seq::empty()
        }) + s,
    decreases s.len(), 0nat,
{
    let k = first_of(s, '|', ')');
    lemma_first_of(s, '|', ')');
    if !(0 < k < s.len()) {
    } else if s[k] == '|' {
        let wider = seen.push(s.take(k));
        lemma_options_written(s.skip(k + 1), wider);
        assert(wider.drop_last() =~= seen);
        assert(s =~= s.take(k) + seq!['|'] + s.skip(k + 1));
    } else if seen.len() > 0 {
        if let Some(more) = parse(s.skip(k + 1)) {
            let options = seen.push(s.take(k));
            let alternation = seq![TokenView::OneOfText(options)];
            lemma_parse_written(s.skip(k + 1));
            lemma_written_concat(alternation, more);
            lemma_written_one(TokenView::OneOfText(options));
            assert(options.drop_last() =~= seen);
            assert(s =~= s.take(k) + seq![')'] + s.skip(k + 1));
        }
    }
}

/// What `parse` and `parse_options` make is canonical, and what
/// `parse_options` makes begins with the alternation, given that the options
/// seen so far are as the options of an alternation must be.
pub proof fn lemma_parse_canonical(s: Seq<char>)
    ensures
        parse(s) matches Some(tokens) ==> canonical(tokens),
    decreases s.len(), 1nat,
{
    let k = first_of(s, '.', '(');
    lemma_first_of(s, '.', '(');
    if !(0 <= k < s.len()) {
        assert(s.take(s.len() as int) =~= s);
    } else if s[k] == '.' {
        lemma_parse_canonical(s.skip(k + 1));
    } else {
        lemma_options_canonical(s.skip(k + 1), Seq::empty());
    }
}

/// The same from inside an alternation.
pub proof fn lemma_options_canonical(s: Seq<char>, seen: Seq<Seq<char>>)
    requires
        forall|i: int|
            0 <= i < seen.len() ==> (#[trigger] seen[i]).len() > 0 && plain(seen[i], '|', ')'),
    ensures
        parse_options(s, seen) matches Some(tokens) ==> canonical(tokens) && tokens.len() > 0
            && tokens[0] is OneOfText,
    decreases s.len(), 0nat,
{
    let k = first_of(s, '|', ')');
    lemma_first_of(s, '|', ')');
    if !(0 < k < s.len()) {
    } else if s[k] == '|' {
        lemma_options_canonical(s.skip(k + 1), seen.push(s.take(k)));
    } else if seen.len() > 0 {
        lemma_parse_canonical(s.skip(k + 1));
    }
}

/// Where `text` holds neither `a` nor `b` and is followed by one of them or
/// by nothing, the first of them stands right after `text`.
pub proof fn lemma_first_of_plain(text: Seq<char>, rest: Seq<char>, a: char, b: char)
    requires
        plain(text, a, b),
        rest.len() == 0 || rest[0] == a || rest[0] == b,
    ensures
        first_of(text + rest, a, b) == text.len(),
    decreases text.len(),
{
    if text.len() == 0 {
        assert(text + rest =~= rest);
    } else {
        assert((text + rest).drop_first() =~= text.drop_first() + rest);
        assert(text[0] != a && text[0] != b);
        assert forall|i: int| 0 <= i < text.drop_first().len() implies (
        #[trigger] text.drop_first()[i]) != a && text.drop_first()[i] != b by {
            assert(text[i + 1] != a && text[i + 1] != b);
        }
        lemma_first_of_plain(text.drop_first(), rest, a, b);
    }
}

/// Options as they are written, counted from the front: the first, a `|`,
/// and the others.
pub proof fn lemma_joined_front(options: Seq<Seq<char>>)
    requires
        options.len() >= 2,
    ensures
        joined(options) =~= options[0] + seq!['|'] + joined(options.drop_first()),
    decreases options.len(),
{
    if options.len() == 2 {
        reveal_with_fuel(joined, 2);
        assert(options.drop_last().len() == 1);
        assert(options.drop_first().len() == 1);
    } else {
        lemma_joined_front(options.drop_last());
        assert(options.drop_last().drop_first() =~= options.drop_first().drop_last());
        assert(options.drop_first().last() == options.last());
    }
}

/// The literal that `text` makes: none where it is empty.
pub open spec fn literal_of(text: Seq<char>) -> Seq<TokenView> {
    literal_before(text, text.len() as int)
}

/// Canonical tokens, written, are read again as they were.
pub proof fn lemma_canonical_parses(tokens: Seq<TokenView>)
    requires
        canonical(tokens),
    ensures
        parse(written(tokens)) == Some(tokens),
    decreases tokens.len(), 1nat,
{
    if tokens.len() > 0 {
        if let TokenView::RawText(text) = tokens[0] {
            let others = tokens.drop_first();
            assert(canonical(others)) by {
                assert forall|i: int| 0 <= i < others.len() implies well_formed(
                    #[trigger] others[i],
                ) by {
                    assert(well_formed(tokens[i + 1]));
                }
                assert forall|i: int| 0 <= i < others.len() - 1 implies !((
                #[trigger] others[i]) is RawText && others[i + 1] is RawText) by {
                    assert(!(tokens[i + 1] is RawText && tokens[i + 2] is RawText));
                }
            }
            assert(!(tokens[0] is RawText && tokens.len() > 1 && tokens[1] is RawText));
            lemma_parse_behind_literal(text, others);
            assert(text.take(text.len() as int) =~= text);
            assert(literal_of(text) + others =~= tokens);
        } else {
            let nothing = Seq::<char>::empty();
            lemma_parse_behind_literal(nothing, tokens);
            assert(nothing + written(tokens) =~= written(tokens));
            assert(literal_of(nothing) + tokens =~= tokens);
        }
    } else {
        assert(written(tokens).take(0) =~= written(tokens));
    }
}

/// Canonical tokens that do not begin with a literal, written behind a text
/// that a literal may hold, are read again as that literal and the tokens.
pub proof fn lemma_parse_behind_literal(text: Seq<char>, tokens: Seq<TokenView>)
    requires
        plain(text, '.', '('),
        canonical(tokens),
        tokens.len() == 0 || !(tokens[0] is RawText),
    ensures
        parse(text + written(tokens)) == Some(literal_of(text) + tokens),
    decreases tokens.len(), 0nat,
{
    let s = text + written(tokens);
    let k = text.len() as int;
    if tokens.len() == 0 {
        lemma_first_of_plain(text, Seq::empty(), '.', '(');
        assert(s =~= text);
        assert(literal_of(text) + tokens =~= literal_of(text));
    } else {
        let others = tokens.drop_first();
        assert(canonical(others)) by {
            assert forall|i: int| 0 <= i < others.len() implies well_formed(
                #[trigger] others[i],
            ) by {
                assert(well_formed(tokens[i + 1]));
            }
            assert forall|i: int| 0 <= i < others.len() - 1 implies !((
            #[trigger] others[i]) is RawText && others[i + 1] is RawText) by {
                assert(!(tokens[i + 1] is RawText && tokens[i + 2] is RawText));
            }
        }
        lemma_canonical_parses(others);
        assert(well_formed(tokens[0]));
        assert(s.take(k) =~= text);
        assert(text.take(k) =~= text);
        match tokens[0] {
            TokenView::WildCard => {
                let behind = seq!['.'] + written(others);
                assert(written(tokens) =~= behind);
                lemma_first_of_plain(text, behind, '.', '(');
                assert(s.skip(k + 1) =~= written(others));
                assert(literal_before(s, k).push(TokenView::WildCard) + others =~= literal_of(text)
                    + tokens);
            },
            TokenView::OneOfText(options) => {
                let inside = joined(options) + seq![')'] + written(others);
                assert(written(tokens) =~= seq!['('] + inside);
                lemma_first_of_plain(text, seq!['('] + inside, '.', '(');
                assert(s.skip(k + 1) =~= inside);
                assert(options.skip(0) =~= options);
                assert(options.take(0) =~= Seq::<Seq<char>>::empty());
                lemma_options_read_back(options, 0, others);
                assert(literal_before(s, k) + (seq![TokenView::OneOfText(options)] + others)
                    =~= literal_of(text) + tokens);
            },
            TokenView::RawText(_) => {},
        }
    }
}

/// The options of an alternation from the `n`-th on, written with the
/// closing bracket and the tokens behind it, are read from inside the
/// alternation, the options before them seen, as the alternation and those
/// tokens.
pub proof fn lemma_options_read_back(
    options: Seq<Seq<char>>,
    n: int,
    others: Seq<TokenView>,
)
    requires
        well_formed(TokenView::OneOfText(options)),
        0 <= n < options.len(),
        parse(written(others)) == Some(others),
    ensures
        parse_options(joined(options.skip(n)) + seq![')'] + written(others), options.take(n))
            == Some(seq![TokenView::OneOfText(options)] + others),
    decreases options.len() - n,
{
    let left = options.skip(n);
    let s = joined(left) + seq![')'] + written(others);
    let option = options[n];
    let k = option.len() as int;
    let seen = options.take(n);
    assert(left[0] == option);
    assert(option.len() > 0 && plain(option, '|', ')'));
    assert(seen.push(option) =~= options.take(n + 1));
    if n + 1 < options.len() {
        lemma_joined_front(left);
        assert(left.drop_first() =~= options.skip(n + 1));
        let behind = seq!['|'] + joined(options.skip(n + 1)) + seq![')'] + written(others);
        assert(s =~= option + behind);
        lemma_first_of_plain(option, behind, '|', ')');
        assert(s.take(k) =~= option);
        assert(s.skip(k + 1) =~= joined(options.skip(n + 1)) + seq![')'] + written(others));
        lemma_options_read_back(options, n + 1, others);
    } else {
        assert(joined(left) =~= option);
        let behind = seq![')'] + written(others);
        assert(s =~= option + behind);
        lemma_first_of_plain(option, behind, '|', ')');
        assert(s.take(k) =~= option);
        assert(s.skip(k + 1) =~= written(others));
        assert(options.take(n + 1) =~= options);
    }
}

/// A compiled pattern, written again, is its text.
pub proof fn law_compiled_is_the_text(s: Seq<char>)
    ensures
        compiled(s) matches Some(tokens) ==> written(tokens) =~= s,
{
    lemma_parse_written(s);
    if let Some(tokens) = parse(s) {
        if tokens.len() == 0 {
            lemma_written_one(TokenView::RawText(Seq::empty()));
        }
    }
}

/// A compiled pattern has at least one token. Its tokens are canonical:
/// every literal not empty and free of `.` and `(`, every alternation with two
/// options or more, each not empty and free of `|` and `)`, and no literal
/// next to another. The one exception is the empty pattern, whose one token
/// is the empty literal.
pub proof fn law_compiled_is_canonical(s: Seq<char>)
    ensures
        compiled(s) matches Some(tokens) ==> {
            &&& tokens.len() > 0
            &&& s.len() > 0 ==> canonical(tokens)
            &&& s.len() == 0 ==> tokens == seq![TokenView::RawText(Seq::empty())]
        },
{
    lemma_parse_canonical(s);
    lemma_parse_written(s);
    if let Some(tokens) = parse(s) {
        if tokens.len() == 0 {
            assert(s =~= Seq::empty());
        }
    }
}

/// Canonical tokens are what their written form compiles into. So a text
/// compiles into the one canonical token sequence that is written as that
/// text, and compilation fails exactly where there is none.
pub proof fn law_canonical_compiles_back(tokens: Seq<TokenView>)
    requires
        canonical(tokens),
        tokens.len() > 0,
    ensures
        compiled(written(tokens)) == Some(tokens),
{
    lemma_canonical_parses(tokens);
}

} // verus!
