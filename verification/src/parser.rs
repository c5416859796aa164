//! The pattern parser: a single left-to-right pass over the characters of a
//! pattern, keeping the list of sibling patterns read so far.

use crate::pattern::{asts, Ast, Pattern};
use vstd::prelude::*;
use vstd::slice::slice_subrange;

verus! {

/// Why a pattern was rejected.
#[derive(Debug, Clone, Copy, PartialEq, Eq)]
pub enum ParseError {
    /// A `[` whose class is never closed by `]`.
    UnclosedClass,
    /// A `(` that is never closed by `)`.
    UnclosedGroup,
    /// A `\` at the very end of the pattern.
    DanglingEscape,
    /// A quantifier or `|` with nothing before it, or a `|` with nothing after it.
    MissingOperand,
}

/// What one step of the parser reads.
pub struct Token {
    /// The pattern that the step produces.
    pub node: Ast,
    /// How many characters the step consumes beyond its first one.
    pub extra: nat,
    /// Whether the produced pattern replaces the preceding sibling.
    pub takes_previous: bool,
}

/// The index of the first `c` in `input` at or after `from`.
pub open spec fn find_from(input: Seq<char>, from: int, c: char) -> Option<int>
    decreases input.len() - from,
{
    if from < 0 || from >= input.len() {
        None
    } else if input[from] == c {
        Some(from)
    } else {
        find_from(input, from + 1, c)
    }
}

/// `find_from` gives the first occurrence, or `None` where there is none.
pub proof fn lemma_find_from(input: Seq<char>, from: int, c: char)
    requires
        0 <= from,
    ensures
        match find_from(input, from, c) {
            Some(i) => from <= i < input.len() && input[i] == c && forall|j: int|
                from <= j < i ==> input[j] != c,
            None => forall|j: int| from <= j < input.len() ==> input[j] != c,
        },
    decreases input.len() - from,
{
    if from < input.len() && input[from] != c {
        lemma_find_from(input, from + 1, c);
    }
}

/// The members of `\w`.
pub open spec fn word_chars() -> Seq<char> {
    "abcdefghijklmnopqrstuvwxyzABCDEFGHIJKLMNOPQRSTUVWXYZ0123456789_"@
}

/// The members of `\s`.
pub open spec fn space_chars() -> Seq<char> {
    " \t\r\n"@
}

/// The complement of `\D`.
pub open spec fn digit_chars() -> Seq<char> {
    "0123456789"@
}

/// The pattern for the character that follows a backslash.
pub open spec fn escape_node(c: char) -> Ast {
    if c == 'd' {
        Ast::AnyDigit
    } else if c == 'w' {
        Ast::AnyCharIn(word_chars())
    } else if c == 's' {
        Ast::AnyCharIn(space_chars())
    } else if c == 'D' {
        Ast::AnyCharNotIn(digit_chars())
    } else if c == 'W' {
        Ast::AnyCharNotIn(word_chars())
    } else if c == 'S' {
        Ast::AnyCharNotIn(space_chars())
    } else {
        Ast::Literal(c)
    }
}

/// A token of one character that leaves the siblings alone.
pub open spec fn single(node: Ast) -> Result<Token, ParseError> {
    Ok(Token { node, extra: 0, takes_previous: false })
}

/// A quantifier: it wraps the preceding sibling, which must exist.
pub open spec fn quantified(prev: Option<Ast>, c: char) -> Result<Token, ParseError> {
    match prev {
        None => Err(ParseError::MissingOperand),
        Some(p) => Ok(
            Token {
                node: if c == '*' {
                    Ast::KleeneStar(Box::new(p))
                } else if c == '+' {
                    Ast::OneOrMore(Box::new(p))
                } else {
                    Ast::optional(p)
                },
                extra: 0,
                takes_previous: true,
            },
        ),
    }
}

/// The character class that opens at `i`: an optional `^`, then the members
/// up to the first `]`.
pub open spec fn class_at(input: Seq<char>, i: int) -> Result<Token, ParseError> {
    if i + 1 >= input.len() {
        Err(ParseError::UnclosedClass)
    } else {
        let negated = input[i + 1] == '^';
        let first = if negated {
            i + 2
        } else {
            i + 1
        };
        match find_from(input, first, ']') {
            None => Err(ParseError::UnclosedClass),
            Some(close) => {
                let members = input.subrange(first, close);
                Ok(
                    Token {
                        node: if negated {
                            Ast::AnyCharNotIn(members)
                        } else {
                            Ast::AnyCharIn(members)
                        },
                        extra: (close - i) as nat,
                        takes_previous: false,
                    },
                )
            },
        }
    }
}

/// The last of the siblings, if there is one.
pub open spec fn last_of(siblings: Seq<Ast>) -> Option<Ast> {
    if siblings.len() == 0 {
        None
    } else {
        Some(siblings.last())
    }
}

/// The siblings after a token has been read.
pub open spec fn with_token(siblings: Seq<Ast>, t: Token) -> Seq<Ast> {
    if t.takes_previous {
        siblings.drop_last().push(t.node)
    } else {
        siblings.push(t.node)
    }
}

/// The pattern that a finished list of siblings stands for. An empty list
/// stands for a single arbitrary character.
pub open spec fn finish(siblings: Seq<Ast>) -> Ast {
    if siblings.len() == 0 {
        Ast::AnyChar
    } else if siblings.len() == 1 {
        siblings[0]
    } else {
        Ast::Sequence(siblings)
    }
}

/// The group that opens at `i`. It ends at the first `)` after its `(`, and
/// is an alternation when a `|` stands before that `)`.
pub open spec fn group_at(input: Seq<char>, i: int) -> Result<Token, ParseError>
    decreases input.len(), 0nat, 0nat,
    when 0 <= i < input.len()
{
    match find_from(input, i + 1, ')') {
        None => Err(ParseError::UnclosedGroup),
        Some(close) => {
            proof {
                lemma_find_from(input, i + 1, ')');
                lemma_find_from(input, i + 1, '|');
            }
            let pipe = find_from(input, i + 1, '|');
            if pipe is Some && pipe.unwrap() < close {
                let bar = pipe.unwrap();
                match parse_pattern(input.subrange(i + 1, bar)) {
                    Err(e) => Err(e),
                    Ok(left) => match parse_pattern(input.subrange(bar + 1, close)) {
                        Err(e) => Err(e),
                        Ok(right) => Ok(
                            Token {
                                node: Ast::Or(Box::new(left), Box::new(right)),
                                extra: (close - i) as nat,
                                takes_previous: false,
                            },
                        ),
                    },
                }
            } else {
                match parse_pattern(input.subrange(i + 1, close)) {
                    Err(e) => Err(e),
                    Ok(inner) => Ok(
                        Token { node: inner, extra: (close - i) as nat, takes_previous: false },
                    ),
                }
            }
        },
    }
}

/// The `|` at `i` outside a group: the alternation of the sibling before it
/// and the token after it, which is read as if nothing preceded it. The
/// token of the `|` takes in that operand.
pub open spec fn alternative_at(input: Seq<char>, i: int, prev: Option<Ast>) -> Result<
    Token,
    ParseError,
>
    decreases input.len(), 0nat, 0nat,
    when 0 <= i < input.len()
{
    match prev {
        None => Err(ParseError::MissingOperand),
        Some(left) => if i + 1 >= input.len() {
            Err(ParseError::MissingOperand)
        } else {
            match token_at(input.subrange(i + 1, input.len() as int), 0, None) {
                Err(e) => Err(e),
                Ok(t) => Ok(
                    Token {
                        node: Ast::Or(Box::new(left), Box::new(t.node)),
                        extra: 1 + t.extra,
                        takes_previous: true,
                    },
                ),
            }
        },
    }
}

/// The escape at `i`: the backslash and the character after it.
pub open spec fn escape_at(input: Seq<char>, i: int) -> Result<Token, ParseError> {
    if i + 1 >= input.len() {
        Err(ParseError::DanglingEscape)
    } else {
        Ok(Token { node: escape_node(input[i + 1]), extra: 1, takes_previous: false })
    }
}

/// The token that starts at index `i` of `input`, given the sibling before it.
pub open spec fn token_at(input: Seq<char>, i: int, prev: Option<Ast>) -> Result<
    Token,
    ParseError,
>
    decreases input.len(), 0nat, 1nat,
    when 0 <= i < input.len()
{
    let c = input[i];
    if c == '\\' {
        escape_at(input, i)
    } else if c == '.' {
        single(Ast::AnyChar)
    } else if c == '[' {
        class_at(input, i)
    } else if c == '(' {
        group_at(input, i)
    } else if c == '|' {
        alternative_at(input, i, prev)
    } else if c == '*' || c == '+' || c == '?' {
        quantified(prev, c)
    } else if c == '^' {
        single(Ast::Start)
    } else if c == '$' {
        single(Ast::End)
    } else {
        single(Ast::Literal(c))
    }
}

/// The siblings once the parser, standing at index `i` with `siblings`
/// already read, has consumed the rest of `input`.
pub open spec fn parse_siblings(input: Seq<char>, i: int, siblings: Seq<Ast>) -> Result<
    Seq<Ast>,
    ParseError,
>
    decreases input.len(), 1nat,
        (if i <= input.len() {
            input.len() - i
        } else {
            0
        }),
{
    if i < 0 || i >= input.len() {
        Ok(siblings)
    } else {
        match token_at(input, i, last_of(siblings)) {
            Err(e) => Err(e),
            Ok(t) => parse_siblings(input, i + 1 + t.extra, with_token(siblings, t)),
        }
    }
}

/// The pattern that the parser returns from index `i` with `siblings` read.
pub open spec fn parse_rest(input: Seq<char>, i: int, siblings: Seq<Ast>) -> Result<
    Ast,
    ParseError,
>
    decreases input.len(), 2nat, 0nat,
{
    match parse_siblings(input, i, siblings) {
        Err(e) => Err(e),
        Ok(all) => Ok(finish(all)),
    }
}

/// The pattern that `input` denotes, or the reason why it denotes none.
pub open spec fn parse_pattern(input: Seq<char>) -> Result<Ast, ParseError>
    decreases input.len(), 3nat, 0nat,
{
    parse_rest(input, 0, Seq::empty())
}

/// The character at index `i`.
fn char_at(input: &[char], i: usize) -> (c: char)
    requires
        i < input.len(),
    ensures
        c == input@[i as int],
{
    input[i]
}

/// The characters of `text`, in order.
pub fn chars_of(text: &str) -> (chars: Vec<char>)
    ensures
        chars@ == text@,
{
    let mut chars: Vec<char> = Vec::new();
    for c in it: text.chars()
        invariant
            it.seq() == text@,
            chars@ == it.seq().take(it.index() as int),
    {
        chars.push(c);
    }
    chars
}

/// The parser's state: the pattern's characters, the index of the next one to
/// read, and the siblings read so far at the current grouping level.
pub struct PatternParser<'a> {
    pub input: &'a [char],
    pub index: usize,
    pub patterns: Vec<Pattern>,
}

impl<'a> PatternParser<'a> {
    /// The models of the siblings read so far.
    pub open spec fn siblings(&self) -> Seq<Ast> {
        asts(self.patterns@)
    }

    /// A parser at the start of `input`.
    pub fn new(input: &'a [char]) -> (parser: PatternParser<'a>)
        ensures
            parser.input@ == input@,
            parser.index == 0,
            parser.patterns@.len() == 0,
    {
        PatternParser { input, index: 0, patterns: Vec::new() }
    }

    /// Parses what is left of the input and returns the whole pattern.
    pub fn parse(self) -> (result: Result<Pattern, ParseError>)
        ensures
            match result {
                Ok(p) => parse_rest(self.input@, self.index as int, self.siblings()) == Ok::<
                    Ast,
                    ParseError,
                >(p@),
                Err(e) => parse_rest(self.input@, self.index as int, self.siblings()) == Err::<
                    Ast,
                    ParseError,
                >(e),
            },
    {
        let mut parser: PatternParser<'_> = self;
        parser.internal_parse()
    }

    /// Reads tokens until the input ends, then folds the siblings into one
    /// pattern. On success no sibling is left in the parser.
    pub fn internal_parse(&mut self) -> (result: Result<Pattern, ParseError>)
        ensures
            final(self).input@ == old(self).input@,
            match result {
                Ok(p) => {
                    &&& parse_rest(old(self).input@, old(self).index as int, old(self).siblings())
                        == Ok::<Ast, ParseError>(p@)
                    &&& final(self).patterns@.len() == 0
                    &&& final(self).index >= final(self).input@.len()
                },
                Err(e) => parse_rest(
                    old(self).input@,
                    old(self).index as int,
                    old(self).siblings(),
                ) == Err::<Ast, ParseError>(e),
            },
        decreases old(self).input@.len(), 1nat, 0nat,
    {
        loop
            invariant
                self.input@ == old(self).input@,
                parse_siblings(self.input@, self.index as int, self.siblings()) == parse_siblings(
                    old(self).input@,
                    old(self).index as int,
                    old(self).siblings(),
                ),
            ensures
                self.index >= self.input@.len(),
            decreases
                    (if self.index <= self.input@.len() {
                        self.input@.len() - self.index
                    } else {
                        0
                    }),
        {
            let ghost before = *self;
            match self.next_pattern() {
                Err(e) => {
                    return Err(e);
                },
                Ok(None) => {
                    break ;
                },
                Ok(Some(next)) => {
                    self.patterns.push(next);
                    proof {
                        let t = token_at(
                            before.input@,
                            before.index as int,
                            last_of(before.siblings()),
                        ).unwrap();
                        assert(self.siblings() =~= with_token(before.siblings(), t));
                    }
                },
            }
        }
        let ghost all_read = self.siblings();
        assert(parse_siblings(self.input@, self.index as int, all_read) == Ok::<
            Seq<Ast>,
            ParseError,
        >(all_read));
        if self.patterns.len() == 0 {
            Ok(Pattern::AnyChar)
        } else if self.patterns.len() == 1 {
            let only = self.patterns.pop().unwrap();
            Ok(only)
        } else {
            let mut all: Vec<Pattern> = Vec::new();
            core::mem::swap(&mut all, &mut self.patterns);
            let whole = Pattern::Sequence(all);
            assert(whole@ == Ast::Sequence(all_read)) by {
                assert(whole@->Sequence_0 =~= all_read);
            }
            Ok(whole)
        }
    }

    /// Reads one token. `Ok(None)` means that the input is used up. A token
    /// that wraps the preceding sibling takes it out of the list.
    pub fn next_pattern(&mut self) -> (result: Result<Option<Pattern>, ParseError>)
        ensures
            final(self).input@ == old(self).input@,
            match result {
                Ok(None) => old(self).index >= old(self).input@.len() && *final(self) == *old(self),
                Ok(Some(p)) => {
                    &&& old(self).index < old(self).input@.len()
                    &&& token_at(
                        old(self).input@,
                        old(self).index as int,
                        last_of(old(self).siblings()),
                    ) matches Ok(t)
                    &&& p@ == t.node
                    &&& final(self).index == old(self).index + 1 + t.extra
                    &&& final(self).index <= final(self).input@.len()
                    &&& final(self).patterns@ == if t.takes_previous {
                        old(self).patterns@.drop_last()
                    } else {
                        old(self).patterns@
                    }
                },
                Err(e) => {
                    &&& old(self).index < old(self).input@.len()
                    &&& token_at(
                        old(self).input@,
                        old(self).index as int,
                        last_of(old(self).siblings()),
                    ) == Err::<Token, ParseError>(e)
                },
            },
        decreases old(self).input@.len(), 0nat, 1nat,
    {
        if self.index >= self.input.len() {
            return Ok(None);
        }
        let current = char_at(self.input, self.index);
        let read = if current == '\\' {
            self.escape()
        } else if current == '.' {
            Ok(Pattern::AnyChar)
        } else if current == '[' {
            self.class()
        } else if current == '(' {
            self.group()
        } else if current == '|' {
            self.alternative()
        } else if current == '*' || current == '+' || current == '?' {
            self.quantifier(current)
        } else if current == '^' {
            Ok(Pattern::Start)
        } else if current == '$' {
            Ok(Pattern::End)
        } else {
            Ok(Pattern::Literal(current))
        };
        match read {
            Ok(next) => {
                self.index += 1;
                Ok(Some(next))
            },
            Err(e) => Err(e),
        }
    }

    /// Reads the character after a backslash and leaves the index on it.
    fn escape(&mut self) -> (result: Result<Pattern, ParseError>)
        requires
            old(self).index < old(self).input.len(),
        ensures
            final(self).input@ == old(self).input@,
            final(self).patterns@ == old(self).patterns@,
            result is Ok ==> final(self).index < final(self).input.len(),
            match result {
                Ok(p) => {
                    &&& escape_at(old(self).input@, old(self).index as int) matches Ok(t)
                    &&& p@ == t.node
                    &&& final(self).index == old(self).index + t.extra
                },
                Err(e) => escape_at(old(self).input@, old(self).index as int) == Err::<
                    Token,
                    ParseError,
                >(e),
            },
    {
        if self.index + 1 >= self.input.len() {
            return Err(ParseError::DanglingEscape);
        }
        self.index += 1;
        let c = char_at(self.input, self.index);
        let node = if c == 'd' {
            Pattern::AnyDigit
        } else if c == 'w' {
            Pattern::AnyCharIn(
                chars_of("abcdefghijklmnopqrstuvwxyzABCDEFGHIJKLMNOPQRSTUVWXYZ0123456789_"),
            )
        } else if c == 's' {
            Pattern::AnyCharIn(chars_of(" \t\r\n"))
        } else if c == 'D' {
            Pattern::AnyCharNotIn(chars_of("0123456789"))
        } else if c == 'W' {
            Pattern::AnyCharNotIn(
                chars_of("abcdefghijklmnopqrstuvwxyzABCDEFGHIJKLMNOPQRSTUVWXYZ0123456789_"),
            )
        } else if c == 'S' {
            Pattern::AnyCharNotIn(chars_of(" \t\r\n"))
        } else {
            Pattern::Literal(c)
        };
        Ok(node)
    }

    /// Reads a character class and leaves the index on its `]`.
    #[verifier::loop_isolation(false)]
    fn class(&mut self) -> (result: Result<Pattern, ParseError>)
        requires
            old(self).index < old(self).input.len(),
        ensures
            final(self).input@ == old(self).input@,
            final(self).patterns@ == old(self).patterns@,
            result is Ok ==> final(self).index < final(self).input.len(),
            match result {
                Ok(p) => {
                    &&& class_at(old(self).input@, old(self).index as int) matches Ok(t)
                    &&& p@ == t.node
                    &&& final(self).index == old(self).index + t.extra
                },
                Err(e) => class_at(old(self).input@, old(self).index as int) == Err::<
                    Token,
                    ParseError,
                >(e),
            },
    {
        let ghost input = self.input@;
        self.index += 1;
        if self.index >= self.input.len() {
            return Err(ParseError::UnclosedClass);
        }
        let mut chars: Vec<char> = Vec::new();
        let mut is_not = false;
        if char_at(self.input, self.index) == '^' {
            is_not = true;
            self.index += 1;
        }
        let ghost first = self.index as int;
        proof {
            lemma_find_from(input, first, ']');
        }
        while self.index < self.input.len() && char_at(self.input, self.index) != ']'
            invariant
                self.input@ == input,
                self.patterns@ == old(self).patterns@,
                first <= self.index <= input.len(),
                chars@ == input.subrange(first, self.index as int),
                forall|j: int| first <= j < self.index ==> input[j] != ']',
            decreases input.len() - self.index,
        {
            chars.push(char_at(self.input, self.index));
            self.index += 1;
        }
        if self.index >= self.input.len() {
            return Err(ParseError::UnclosedClass);
        }
        if is_not {
            Ok(Pattern::AnyCharNotIn(chars))
        } else {
            Ok(Pattern::AnyCharIn(chars))
        }
    }

    /// Reads a group and leaves the index on its `)`.
    fn group(&mut self) -> (result: Result<Pattern, ParseError>)
        requires
            old(self).index < old(self).input.len(),
        ensures
            final(self).input@ == old(self).input@,
            final(self).patterns@ == old(self).patterns@,
            result is Ok ==> final(self).index < final(self).input.len(),
            match result {
                Ok(p) => {
                    &&& group_at(old(self).input@, old(self).index as int) matches Ok(t)
                    &&& p@ == t.node
                    &&& final(self).index == old(self).index + t.extra
                },
                Err(e) => group_at(old(self).input@, old(self).index as int) == Err::<
                    Token,
                    ParseError,
                >(e),
            },
        decreases old(self).input@.len(), 0nat, 0nat,
    {
        let ghost input = self.input@;
        let ghost at = self.index as int;
        proof {
            lemma_find_from(input, at + 1, ')');
            lemma_find_from(input, at + 1, '|');
        }
        self.index += 1;
        let next_close = match self.next_index(')') {
            Some(i) => i,
            None => {
                return Err(ParseError::UnclosedGroup);
            },
        };
        let index = self.index;
        let pipe_index = self.next_index('|');
        self.index = next_close;
        assert(find_from(input, at + 1, ')') == Some(next_close as int));
        match pipe_index {
            Some(pipe_index) if pipe_index < next_close => {
                let mut left_parser = PatternParser::new(
                    slice_subrange(self.input, index, pipe_index),
                );
                assert(left_parser.siblings() =~= Seq::<Ast>::empty());
                let left = match left_parser.internal_parse() {
                    Ok(left) => left,
                    Err(e) => {
                        return Err(e);
                    },
                };
                let mut right_parser = PatternParser::new(
                    slice_subrange(self.input, pipe_index + 1, next_close),
                );
                assert(right_parser.siblings() =~= Seq::<Ast>::empty());
                let right = match right_parser.internal_parse() {
                    Ok(right) => right,
                    Err(e) => {
                        return Err(e);
                    },
                };
                Ok(Pattern::Or(Box::new(left), Box::new(right)))
            },
            _ => {
                assert(!(find_from(input, at + 1, '|') is Some && find_from(
                    input,
                    at + 1,
                    '|',
                ).unwrap() < next_close));
                let mut inner_parser = PatternParser::new(
                    slice_subrange(self.input, index, next_close),
                );
                assert(inner_parser.siblings() =~= Seq::<Ast>::empty());
                inner_parser.internal_parse()
            },
        }
    }

    /// Reads a `|` outside a group and its right operand: takes the
    /// preceding sibling as the left operand, reads the token after the `|`
    /// as the right one, and leaves the index on that token's last character.
    fn alternative(&mut self) -> (result: Result<Pattern, ParseError>)
        requires
            old(self).index < old(self).input.len(),
        ensures
            final(self).input@ == old(self).input@,
            result is Ok ==> final(self).index < final(self).input.len(),
            match result {
                Ok(p) => {
                    &&& alternative_at(
                        old(self).input@,
                        old(self).index as int,
                        last_of(old(self).siblings()),
                    ) matches Ok(t)
                    &&& p@ == t.node
                    &&& final(self).index == old(self).index + t.extra
                    &&& final(self).patterns@ == old(self).patterns@.drop_last()
                },
                Err(e) => alternative_at(
                    old(self).input@,
                    old(self).index as int,
                    last_of(old(self).siblings()),
                ) == Err::<Token, ParseError>(e),
            },
        decreases old(self).input@.len(), 0nat, 0nat,
    {
        let left = match self.patterns.pop() {
            Some(left) => left,
            None => {
                return Err(ParseError::MissingOperand);
            },
        };
        self.index += 1;
        let mut ahead = PatternParser::new(
            slice_subrange(self.input, self.index, self.input.len()),
        );
        assert(ahead.siblings() =~= Seq::<Ast>::empty());
        let right = match ahead.next_pattern() {
            Ok(Some(right)) => right,
            Ok(None) => {
                return Err(ParseError::MissingOperand);
            },
            Err(e) => {
                return Err(e);
            },
        };
        self.index += ahead.index - 1;
        Ok(Pattern::Or(Box::new(left), Box::new(right)))
    }

    /// Wraps the preceding sibling in the quantifier `c`.
    fn quantifier(&mut self, c: char) -> (result: Result<Pattern, ParseError>)
        requires
            c == '*' || c == '+' || c == '?',
        ensures
            final(self).input@ == old(self).input@,
            final(self).index == old(self).index,
            match result {
                Ok(p) => {
                    &&& quantified(last_of(old(self).siblings()), c) matches Ok(t)
                    &&& p@ == t.node
                    &&& final(self).patterns@ == old(self).patterns@.drop_last()
                },
                Err(e) => quantified(last_of(old(self).siblings()), c) == Err::<
                    Token,
                    ParseError,
                >(e),
            },
    {
        let left = match self.patterns.pop() {
            Some(left) => left,
            None => {
                return Err(ParseError::MissingOperand);
            },
        };
        if c == '*' {
            Ok(Pattern::KleeneStar(Box::new(left)))
        } else if c == '+' {
            Ok(Pattern::OneOrMore(Box::new(left)))
        } else {
            let nothing = Pattern::Sequence(Vec::new());
            assert(nothing@ == Ast::Sequence(Seq::empty())) by {
                assert(nothing@->Sequence_0 =~= Seq::<Ast>::empty());
            }
            let once = Pattern::OneOrMore(Box::new(left));
            assert(once@ == Ast::OneOrMore(Box::new(left@)));
            Ok(Pattern::Or(Box::new(nothing), Box::new(once)))
        }
    }

    /// The index of the first `c` at or after the current index.
    pub fn next_index(&self, c: char) -> (found: Option<usize>)
        ensures
            match found {
                Some(i) => {
                    &&& self.index <= i < self.input@.len()
                    &&& self.input@[i as int] == c
                    &&& forall|j: int| self.index <= j < i ==> self.input@[j] != c
                },
                None => forall|j: int| self.index <= j < self.input@.len() ==> self.input@[j] != c,
            },
    {
        let mut i: usize = self.index;
        while i < self.input.len()
            invariant
                self.index <= i,
                forall|j: int| self.index <= j < i && j < self.input@.len() ==> self.input@[j] != c,
            decreases self.input@.len() - i,
        {
            if char_at(self.input, i) == c {
                return Some(i);
            }
            i += 1;
        }
        None
    }
}

} // verus!
