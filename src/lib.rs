//! Regular-expression matching through Thompson's construction.
//!
//! Text is parsed into a [`Regex`] tree, the tree is compiled into an [`NFA`],
//! and the automaton decides acceptance of an input by simulating the set of
//! live states, one input character at a time.

pub mod nfa;
pub mod regex;
pub mod thompson;

use crate::nfa::{state_count, NFA};
use crate::regex::{lang, parse_spec, Regex};
use vstd::prelude::*;

verus! {

/// Whether `input` matches `pattern`: parses the pattern, compiles the tree
/// and runs the automaton. `None` only where the automaton would need more
/// than `usize::MAX` states.
pub fn run(pattern: &str, input: &str) -> (r: Option<bool>)
    ensures
        r == if state_count(parse_spec(pattern@)) <= usize::MAX {
            Some(lang(parse_spec(pattern@), input@))
        } else {
            None::<bool>
        },
{
    let regex = Regex::new(pattern);
    match NFA::size_for(&regex) {
        Some(_) => {
            proof {
                thompson::lemma_compiled_language(regex, input@);
            }
            let nfa = NFA::compile(regex);
            Some(nfa.matches(input))
        },
        None => None,
    }
}

} // verus!
