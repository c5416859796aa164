//! Facts about the grammar: how the tokens and siblings of a text relate to
//! those of the text with something before or behind it.

use crate::parser::{
    find_from, last_of, lemma_find_from, parse_pattern, parse_siblings, token_at, with_token,
    ParseError, Token,
};
use crate::pattern::Ast;
use crate::size::lemma_token_size;
use vstd::prelude::*;

verus! {

/// Searching in the rest of a text from some index on is searching in the
/// text, with the indices moved.
pub proof fn lemma_find_suffix(input: Seq<char>, d: int, from: int, c: char)
    requires
        0 <= d <= input.len(),
        0 <= from,
    ensures
        find_from(input.subrange(d, input.len() as int), from, c) == match find_from(
            input,
            d + from,
            c,
        ) {
            Some(x) => Some(x - d),
            None => None,
        },
{
    let s = input.subrange(d, input.len() as int);
    lemma_find_from(s, from, c);
    lemma_find_from(input, d + from, c);
    match find_from(s, from, c) {
        Some(y) => {
            assert(input[d + y] == s[y]);
            match find_from(input, d + from, c) {
                Some(x) => {
                    if x - d < y {
                        assert(s[x - d] == input[x]);
                    }
                },
                None => {},
            }
        },
        None => {
            match find_from(input, d + from, c) {
                Some(x) => {
                    assert(s[x - d] == input[x]);
                },
                None => {},
            }
        },
    }
}

/// The token at an index of the rest of a text is the token at that place
/// of the text.
pub proof fn lemma_token_suffix(input: Seq<char>, d: int, j: int, prev: Option<Ast>)
    requires
        0 <= d,
        0 <= j,
        d + j < input.len(),
    ensures
        token_at(input.subrange(d, input.len() as int), j, prev) == token_at(input, d + j, prev),
{
    let n = input.len() as int;
    let s = input.subrange(d, n);
    let c = input[d + j];
    assert(s[j] == c);
    if c == '\\' {
        if j + 1 < s.len() {
            assert(s[j + 1] == input[d + j + 1]);
        }
    } else if c == '[' {
        if j + 1 < s.len() {
            assert(s[j + 1] == input[d + j + 1]);
            let first = if s[j + 1] == '^' {
                j + 2
            } else {
                j + 1
            };
            lemma_find_suffix(input, d, first, ']');
            lemma_find_from(input, d + first, ']');
            match find_from(input, d + first, ']') {
                Some(close) => {
                    assert(s.subrange(first, close - d) =~= input.subrange(d + first, close));
                },
                None => {},
            }
        }
    } else if c == '(' {
        lemma_find_suffix(input, d, j + 1, ')');
        lemma_find_suffix(input, d, j + 1, '|');
        lemma_find_from(input, d + j + 1, ')');
        lemma_find_from(input, d + j + 1, '|');
        match find_from(input, d + j + 1, ')') {
            Some(close) => {
                assert(s.subrange(j + 1, close - d) =~= input.subrange(d + j + 1, close));
                match find_from(input, d + j + 1, '|') {
                    Some(bar) => {
                        if bar < close {
                            assert(s.subrange(j + 1, bar - d) =~= input.subrange(d + j + 1, bar));
                            assert(s.subrange(bar - d + 1, close - d) =~= input.subrange(
                                bar + 1,
                                close,
                            ));
                        }
                    },
                    None => {},
                }
            },
            None => {},
        }
    } else if c == '|' {
        if j + 1 < s.len() {
            assert(s.subrange(j + 1, s.len() as int) =~= input.subrange(d + j + 1, n));
        }
    }
}

/// Whether the character makes a token that looks at the sibling before it.
pub open spec fn looks_back(c: char) -> bool {
    c == '|' || c == '*' || c == '+' || c == '?'
}

/// A token that is no quantifier and no `|` is the same whatever sibling
/// stands before it.
pub proof fn lemma_token_ignores_previous(
    input: Seq<char>,
    i: int,
    one: Option<Ast>,
    other: Option<Ast>,
)
    requires
        0 <= i < input.len(),
        !looks_back(input[i]),
    ensures
        token_at(input, i, one) == token_at(input, i, other),
{
}

/// A token that is read with no sibling before it is no quantifier and no `|`.
pub proof fn lemma_first_token(input: Seq<char>, i: int)
    requires
        0 <= i < input.len(),
        token_at(input, i, None) is Ok,
    ensures
        !looks_back(input[i]),
{
}

/// A token ends within the text, and takes a sibling only where there is one.
pub proof fn lemma_token_extent(input: Seq<char>, i: int, prev: Option<Ast>)
    requires
        0 <= i < input.len(),
        token_at(input, i, prev) is Ok,
    ensures
        i + 1 + token_at(input, i, prev).unwrap().extra <= input.len(),
        token_at(input, i, prev).unwrap().takes_previous ==> prev is Some,
{
    lemma_token_size(input, i, prev);
}

/// Where there is something to read or a sibling has been read, the
/// finished list of siblings is not empty.
pub proof fn lemma_siblings_nonempty(input: Seq<char>, i: int, siblings: Seq<Ast>)
    requires
        0 <= i <= input.len(),
        i < input.len() || siblings.len() > 0,
        parse_siblings(input, i, siblings) is Ok,
    ensures
        parse_siblings(input, i, siblings).unwrap().len() > 0,
    decreases input.len() - i,
{
    if i < input.len() {
        let t = token_at(input, i, last_of(siblings)).unwrap();
        lemma_token_extent(input, i, last_of(siblings));
        lemma_siblings_nonempty(input, i + 1 + t.extra, with_token(siblings, t));
    }
}

/// Reading a text that stands behind another, with siblings held from
/// before, gives the held siblings and then those of the text alone.
pub proof fn lemma_siblings_behind(
    first: Seq<char>,
    text: Seq<char>,
    i: int,
    held: Seq<Ast>,
    siblings: Seq<Ast>,
)
    requires
        0 <= i <= text.len(),
        parse_siblings(text, i, siblings) is Ok,
    ensures
        parse_siblings(first + text, first.len() + i, held + siblings) == Ok::<
            Seq<Ast>,
            ParseError,
        >(held + parse_siblings(text, i, siblings).unwrap()),
    decreases text.len() - i,
{
    let whole = first + text;
    let all = held + siblings;
    let d = first.len() as int;
    if i < text.len() {
        let prev = last_of(siblings);
        let t = token_at(text, i, prev).unwrap();
        assert(whole.subrange(d, whole.len() as int) =~= text);
        lemma_token_suffix(whole, d, i, last_of(all));
        if siblings.len() == 0 {
            lemma_first_token(text, i);
            lemma_token_ignores_previous(text, i, prev, last_of(all));
        } else {
            assert(all.last() == siblings.last());
        }
        assert(token_at(whole, d + i, last_of(all)) == Ok::<Token, ParseError>(t));
        lemma_token_extent(text, i, prev);
        assert(with_token(all, t) =~= held + with_token(siblings, t));
        lemma_siblings_behind(first, text, i + 1 + t.extra, held, with_token(siblings, t));
    }
}

/// The siblings of a text with a leading `^` are those of the text without
/// it, behind the anchor.
pub proof fn lemma_caret_text(text: Seq<char>)
    requires
        parse_siblings(text, 0, Seq::empty()) is Ok,
    ensures
        parse_siblings(seq!['^'] + text, 0, Seq::empty()) == Ok::<Seq<Ast>, ParseError>(
            seq![Ast::Start] + parse_siblings(text, 0, Seq::empty()).unwrap(),
        ),
{
    let whole = seq!['^'] + text;
    let none = Seq::<Ast>::empty();
    let t = token_at(whole, 0, last_of(none)).unwrap();
    assert(whole[0] == '^');
    assert(with_token(none, t) =~= seq![Ast::Start] + none);
    lemma_siblings_behind(seq!['^'], text, 0, seq![Ast::Start], none);
}

/// What is found in a text is found in the text with more behind it.
pub proof fn lemma_find_extended(input: Seq<char>, more: Seq<char>, from: int, c: char)
    requires
        0 <= from,
        find_from(input, from, c) is Some,
    ensures
        find_from(input + more, from, c) == find_from(input, from, c),
{
    lemma_find_from(input, from, c);
    lemma_find_from(input + more, from, c);
    let x = find_from(input, from, c).unwrap();
    assert((input + more)[x] == input[x]);
    match find_from(input + more, from, c) {
        Some(y) => {
            if y < x {
                assert((input + more)[y] == input[y]);
            }
        },
        None => {},
    }
}

/// What is not found in a text is found, in the text with more behind it,
/// behind the text or not at all.
pub proof fn lemma_find_absent(input: Seq<char>, more: Seq<char>, from: int, c: char)
    requires
        0 <= from,
        find_from(input, from, c) is None,
    ensures
        find_from(input + more, from, c) matches Some(y) ==> y >= input.len(),
{
    lemma_find_from(input, from, c);
    lemma_find_from(input + more, from, c);
    match find_from(input + more, from, c) {
        Some(y) => {
            if y < input.len() {
                assert((input + more)[y] == input[y]);
            }
        },
        None => {},
    }
}

/// A token of a text is the same token when more stands behind the text.
pub proof fn lemma_token_before(text: Seq<char>, more: Seq<char>, i: int, prev: Option<Ast>)
    requires
        0 <= i < text.len(),
        token_at(text, i, prev) is Ok,
    ensures
        token_at(text + more, i, prev) == token_at(text, i, prev),
    decreases text.len(),
{
    let whole = text + more;
    let n = text.len() as int;
    let c = text[i];
    assert(whole[i] == c);
    if c == '\\' {
        assert(whole[i + 1] == text[i + 1]);
    } else if c == '[' {
        assert(whole[i + 1] == text[i + 1]);
        let first = if text[i + 1] == '^' {
            i + 2
        } else {
            i + 1
        };
        lemma_find_extended(text, more, first, ']');
        lemma_find_from(text, first, ']');
        let close = find_from(text, first, ']').unwrap();
        assert(whole.subrange(first, close) =~= text.subrange(first, close));
    } else if c == '(' {
        lemma_find_extended(text, more, i + 1, ')');
        lemma_find_from(text, i + 1, ')');
        lemma_find_from(text, i + 1, '|');
        let close = find_from(text, i + 1, ')').unwrap();
        assert(whole.subrange(i + 1, close) =~= text.subrange(i + 1, close));
        match find_from(text, i + 1, '|') {
            Some(bar) => {
                lemma_find_extended(text, more, i + 1, '|');
                if bar < close {
                    assert(whole.subrange(i + 1, bar) =~= text.subrange(i + 1, bar));
                    assert(whole.subrange(bar + 1, close) =~= text.subrange(bar + 1, close));
                }
            },
            None => {
                lemma_find_absent(text, more, i + 1, '|');
            },
        }
    } else if c == '|' {
        let rest = text.subrange(i + 1, n);
        assert(whole.subrange(i + 1, whole.len() as int) =~= rest + more);
        lemma_token_before(rest, more, 0, None);
    }
}

/// Reading a text with more behind it comes to the end of the text with
/// the siblings of the text.
pub proof fn lemma_siblings_before(text: Seq<char>, more: Seq<char>, i: int, siblings: Seq<Ast>)
    requires
        0 <= i <= text.len(),
        parse_siblings(text, i, siblings) is Ok,
    ensures
        parse_siblings(text + more, i, siblings) == parse_siblings(
            text + more,
            text.len() as int,
            parse_siblings(text, i, siblings).unwrap(),
        ),
    decreases text.len() - i,
{
    if i < text.len() {
        let prev = last_of(siblings);
        let t = token_at(text, i, prev).unwrap();
        lemma_token_before(text, more, i, prev);
        lemma_token_extent(text, i, prev);
        lemma_siblings_before(text, more, i + 1 + t.extra, with_token(siblings, t));
    }
}

/// **Texts in a row.** The siblings of two texts in a row, each of which
/// has a pattern of its own, are those of the first and then those of the
/// second.
pub proof fn lemma_concat_text(first: Seq<char>, second: Seq<char>)
    requires
        parse_siblings(first, 0, Seq::empty()) is Ok,
        parse_siblings(second, 0, Seq::empty()) is Ok,
    ensures
        parse_siblings(first + second, 0, Seq::empty()) == Ok::<Seq<Ast>, ParseError>(
            parse_siblings(first, 0, Seq::empty()).unwrap() + parse_siblings(
                second,
                0,
                Seq::empty(),
            ).unwrap(),
        ),
{
    let none = Seq::<Ast>::empty();
    let held = parse_siblings(first, 0, none).unwrap();
    lemma_siblings_before(first, second, 0, none);
    lemma_siblings_behind(first, second, 0, held, none);
    assert(held + none =~= held);
}

/// The siblings of a text with a `$` behind it are those of the text, and
/// the anchor behind them.
pub proof fn lemma_siblings_before_dollar(text: Seq<char>, i: int, siblings: Seq<Ast>)
    requires
        0 <= i <= text.len(),
        parse_siblings(text, i, siblings) is Ok,
    ensures
        parse_siblings(text.push('$'), i, siblings) == Ok::<Seq<Ast>, ParseError>(
            parse_siblings(text, i, siblings).unwrap().push(Ast::End),
        ),
{
    let whole = text.push('$');
    let n = text.len() as int;
    let all = parse_siblings(text, i, siblings).unwrap();
    assert(whole =~= text + seq!['$']);
    lemma_siblings_before(text, seq!['$'], i, siblings);
    assert(whole[n] == '$');
    let t = token_at(whole, n, last_of(all)).unwrap();
    assert(with_token(all, t) == all.push(Ast::End));
    assert(parse_siblings(whole, n + 1, all.push(Ast::End)) == Ok::<Seq<Ast>, ParseError>(
        all.push(Ast::End),
    ));
    assert(parse_siblings(whole, n, all) == Ok::<Seq<Ast>, ParseError>(all.push(Ast::End)));
}

/// The pattern of a text that is a single token followed by a quantifier
/// is the quantified pattern of that token.
pub proof fn lemma_quantified_text(text: Seq<char>, c: char)
    requires
        c == '*' || c == '+' || c == '?',
        parse_siblings(text, 0, Seq::empty()) matches Ok(ps) && ps.len() == 1,
    ensures
        parse_pattern(text) == Ok::<Ast, ParseError>(
            parse_siblings(text, 0, Seq::empty()).unwrap()[0],
        ),
        parse_pattern(text.push(c)) == ({
            let p = parse_siblings(text, 0, Seq::empty()).unwrap()[0];
            Ok::<Ast, ParseError>(
                if c == '*' {
                    Ast::KleeneStar(Box::new(p))
                } else if c == '+' {
                    Ast::OneOrMore(Box::new(p))
                } else {
                    Ast::optional(p)
                },
            )
        }),
{
    let ps = parse_siblings(text, 0, Seq::empty()).unwrap();
    let whole = text.push(c);
    let n = text.len() as int;
    assert(whole =~= text + seq![c]);
    lemma_siblings_before(text, seq![c], 0, Seq::empty());
    assert(whole[n] == c);
    let t = token_at(whole, n, last_of(ps)).unwrap();
    assert(ps.drop_last() =~= Seq::<Ast>::empty());
    assert(with_token(ps, t) =~= seq![t.node]);
    assert(parse_siblings(whole, n + 1, seq![t.node]) == Ok::<Seq<Ast>, ParseError>(
        seq![t.node],
    ));
    assert(parse_siblings(whole, n, ps) == Ok::<Seq<Ast>, ParseError>(seq![t.node]));
}

} // verus!
