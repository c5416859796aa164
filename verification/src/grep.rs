//! The line-search driver: does a pattern match somewhere within a line?

use crate::builder::NfaBuilder;
use crate::laws::{lemma_search, occurs};
use crate::parser::{chars_of, parse_pattern, ParseError, PatternParser};
use crate::pattern::{Ast, Pattern, SPECIAL_MARKER};
use crate::runner::NfaRunner;
use vstd::prelude::*;
use vstd::string::*;

verus! {

/// A search: the text of a pattern and the line to search in.
pub struct Grep {
    pub pattern: String,
    pub input: String,
}

/// The pattern that is compiled for a search: the user's pattern with
/// anything before it and anything after it.
pub open spec fn driver_pattern(p: Ast) -> Ast {
    Ast::Sequence(
        seq![
            Ast::KleeneStar(Box::new(Ast::AnyChar)),
            p,
            Ast::KleeneStar(Box::new(Ast::AnyChar)),
        ],
    )
}

/// The line as the automaton reads it: between two marker characters.
pub open spec fn augmented(input: Seq<char>) -> Seq<char> {
    seq![SPECIAL_MARKER] + input + seq![SPECIAL_MARKER]
}

/// Whether the automaton compiled for a search with `p` accepts the line.
pub open spec fn search(p: Ast, input: Seq<char>) -> bool {
    driver_pattern(p).thompson(0).accepts(augmented(input))
}

/// Whether the pattern of a text can be compiled for a search: the builder
/// numbers the states from 1, and the ids must fit in `usize`.
pub open spec fn text_fits(text: Seq<char>) -> bool {
    parse_pattern(text) matches Ok(p) ==> driver_pattern(p).state_count() <= usize::MAX
}

impl Grep {
    /// Whether the pattern can be compiled for a search.
    pub open spec fn fits(&self) -> bool {
        text_fits(self.pattern@)
    }

    /// Parses the pattern, compiles it for a search, and runs the automaton
    /// on the line between two markers. A malformed pattern is an error.
    ///
    /// The answer is that of the compiled automaton. It is `true` whenever
    /// the pattern matches some stretch of the line between its markers, and
    /// in no other case where every pattern under a `*` neither begins nor
    /// ends with a quantified pattern.
    pub fn is_match(&self) -> (result: Result<bool, ParseError>)
        requires
            self.fits(),
        ensures
            result == match parse_pattern(self.pattern@) {
                Ok(p) => Ok::<bool, ParseError>(search(p, self.input@)),
                Err(e) => Err::<bool, ParseError>(e),
            },
            parse_pattern(self.pattern@) matches Ok(p) ==> (occurs(p, augmented(self.input@))
                ==> result == Ok::<bool, ParseError>(true)),
            parse_pattern(self.pattern@) matches Ok(p) ==> (p.star_safe() ==> result == Ok::<
                bool,
                ParseError,
            >(occurs(p, augmented(self.input@)))),
    {
        let chars: Vec<char> = chars_of(self.pattern.as_str());
        let pattern_parser = PatternParser::new(chars.as_slice());
        assert(pattern_parser.siblings() =~= Seq::<Ast>::empty());
        let pattern = match pattern_parser.parse() {
            Ok(pattern) => pattern,
            Err(e) => {
                return Err(e);
            },
        };
        let ghost p = pattern@;
        proof {
            lemma_search(p, self.input@);
        }

        let mut modified_input = String::from_str("\x01");
        modified_input.append(self.input.as_str());
        modified_input.append("\x01");
        proof {
            reveal_strlit("\x01");
            assert("\x01"@ =~= seq![SPECIAL_MARKER]);
        }
        let before = Pattern::KleeneStar(Box::new(Pattern::AnyChar));
        let after = Pattern::KleeneStar(Box::new(Pattern::AnyChar));
        proof {
            reveal_with_fuel(Pattern::ast, 3);
        }
        let modified_pattern = Pattern::Sequence(vec![before, pattern, after]);
        proof {
            assert(modified_pattern@->Sequence_0 =~= driver_pattern(p)->Sequence_0);
        }
        let mut nfa_builder = NfaBuilder::new();
        let nfa = nfa_builder.of(modified_pattern);
        let nfa_runner = NfaRunner::new(nfa);
        Ok(nfa_runner.run(modified_input.as_str()))
    }
}

} // verus!
