//! How many states the pattern of a text can need: a bound in the length
//! of the text, so that short patterns are known to fit the id counter.

use crate::grep::{driver_pattern, text_fits};
use crate::parser::{
    find_from, finish, last_of, lemma_find_from, parse_pattern, parse_siblings, token_at,
    with_token, Token,
};
use crate::pattern::Ast;
use vstd::prelude::*;

verus! {

/// What the patterns of a finished list of siblings need, the pattern that
/// the list stands for needs too, but never less than two states.
pub proof fn lemma_finish_count(all: Seq<Ast>)
    ensures
        finish(all).state_count() <= Ast::chain_count(all) + 2,
{
    if all.len() == 1 {
        assert(all.drop_last() =~= Seq::<Ast>::empty());
        assert(Ast::chain_count(all.drop_last()) == 0);
    }
}

/// The count after a token has been read: that of the siblings, less that
/// of the sibling that the token took, plus that of the token's pattern.
pub proof fn lemma_with_token_count(siblings: Seq<Ast>, t: Token)
    requires
        t.takes_previous ==> siblings.len() > 0,
    ensures
        Ast::chain_count(with_token(siblings, t)) == Ast::chain_count(siblings)
            + t.node.state_count() - (if t.takes_previous {
            siblings.last().state_count()
        } else {
            0
        }),
{
    if t.takes_previous {
        assert(siblings.drop_last().push(t.node).drop_last() =~= siblings.drop_last());
    } else {
        assert(siblings.push(t.node).drop_last() =~= siblings);
    }
}

/// A token ends within the text, takes a sibling only where there is one,
/// and needs at most four states for each of its characters, besides those
/// of the sibling that it takes.
pub proof fn lemma_token_size(input: Seq<char>, i: int, prev: Option<Ast>)
    requires
        0 <= i < input.len(),
        token_at(input, i, prev) is Ok,
    ensures
        ({
            let t = token_at(input, i, prev).unwrap();
            &&& i + 1 + t.extra <= input.len()
            &&& t.takes_previous ==> prev is Some
            &&& t.node.state_count() <= 4 * (1 + t.extra) + (if t.takes_previous {
                prev.unwrap().state_count()
            } else {
                0
            })
        }),
    decreases input.len(), 0nat, 0nat,
{
    let c = input[i];
    let n = input.len() as int;
    if c == '[' {
        let first = if input[i + 1] == '^' {
            i + 2
        } else {
            i + 1
        };
        lemma_find_from(input, first, ']');
    } else if c == '(' {
        lemma_find_from(input, i + 1, ')');
        lemma_find_from(input, i + 1, '|');
        let close = find_from(input, i + 1, ')').unwrap();
        let pipe = find_from(input, i + 1, '|');
        if pipe is Some && pipe.unwrap() < close {
            let bar = pipe.unwrap();
            lemma_pattern_size(input.subrange(i + 1, bar));
            lemma_pattern_size(input.subrange(bar + 1, close));
        } else {
            lemma_pattern_size(input.subrange(i + 1, close));
        }
    } else if c == '|' {
        lemma_token_size(input.subrange(i + 1, n), 0, None);
    } else if c == '?' {
        assert(Ast::Sequence(Seq::empty()).state_count() == 2);
        assert(Ast::OneOrMore(Box::new(prev.unwrap())).state_count() == prev.unwrap().state_count());
    }
}

/// The siblings need at most four states for each character that is left
/// to read.
pub proof fn lemma_siblings_size(input: Seq<char>, i: int, siblings: Seq<Ast>)
    requires
        0 <= i <= input.len(),
        parse_siblings(input, i, siblings) is Ok,
    ensures
        Ast::chain_count(parse_siblings(input, i, siblings).unwrap()) <= Ast::chain_count(siblings)
            + 4 * (input.len() - i),
    decreases input.len(), 1nat, input.len() - i,
{
    if i < input.len() {
        let prev = last_of(siblings);
        let t = token_at(input, i, prev).unwrap();
        lemma_token_size(input, i, prev);
        lemma_with_token_count(siblings, t);
        lemma_siblings_size(input, i + 1 + t.extra, with_token(siblings, t));
    }
}

/// **Size.** The pattern of a text needs at most four states for each
/// character of the text, and two more.
pub proof fn lemma_pattern_size(input: Seq<char>)
    requires
        parse_pattern(input) is Ok,
    ensures
        parse_pattern(input).unwrap().state_count() <= 4 * input.len() + 2,
    decreases input.len(), 2nat, 0nat,
{
    lemma_siblings_size(input, 0, Seq::empty());
    lemma_finish_count(parse_siblings(input, 0, Seq::empty()).unwrap());
}

/// The pattern compiled for a search needs four states more than the
/// user's pattern.
pub proof fn lemma_driver_count(p: Ast)
    ensures
        driver_pattern(p).state_count() == p.state_count() + 4,
{
    let any = Ast::KleeneStar(Box::new(Ast::AnyChar));
    let ps = seq![any, p, any];
    assert(any.state_count() == 2) by {
        assert(Ast::AnyChar.state_count() == 2);
    }
    assert(ps.drop_last() =~= seq![any, p]);
    assert(seq![any, p].drop_last() =~= seq![any]);
    assert(seq![any].drop_last() =~= Seq::<Ast>::empty());
    assert(Ast::chain_count(Seq::<Ast>::empty()) == 0);
    assert(seq![any].last() == any);
    assert(Ast::chain_count(seq![any]) == 2);
    assert(Ast::chain_count(seq![any, p]) == 2 + p.state_count());
    assert(Ast::chain_count(ps) == 4 + p.state_count());
}

/// The longest pattern text that is known to fit whatever it holds.
pub open spec fn max_pattern_len() -> int {
    (usize::MAX - 6) / 4
}

/// A pattern text that is short enough can be compiled for a search.
pub proof fn lemma_short_pattern_fits(text: Seq<char>)
    requires
        text.len() <= max_pattern_len(),
    ensures
        text_fits(text),
{
    if parse_pattern(text) is Ok {
        lemma_pattern_size(text);
        lemma_driver_count(parse_pattern(text).unwrap());
    }
}

} // verus!
