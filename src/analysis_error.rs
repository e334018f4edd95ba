use vstd::prelude::*;

verus! {

/// The failures of the analysis engine.
#[derive(Clone, PartialEq, Eq, Debug)]
pub enum AnalysisError {
    /// An automaton refers to a state or a symbol that it does not declare.
    UndeclaredSymbolOrState,
    /// Minimisation was asked of an automaton that lacks some transition.
    IncompleteAutomaton,
    /// A right-hand side, or a whole rule, does not have the shape its grammar class allows.
    MalformedProduction,
    /// FIRST cannot be computed: a non-terminal derives itself in leftmost position.
    LeftRecursiveGrammar,
    /// Two productions of one non-terminal share a SELECT terminal.
    NotLL1 { non_terminal: char, first: String, second: String },
    /// A lookup missed while running an automaton or a parser, at this input index.
    UnknownTransition { index: usize },
    /// A parse did not end within `usize::MAX` steps.
    ParseDidNotEnd,
}

} // verus!
