//! Finite automata and formal grammars: minimisation of deterministic automata,
//! automata of right-linear grammars, FIRST / FOLLOW / SELECT sets,
//! LL(1) table construction and table-driven predictive parsing.

pub mod analysis_error;
pub mod deterministic_finite_automaton;
pub mod first_search;
pub mod follow_sets;
pub mod grammar_sets;
pub mod living_dfa;
pub mod ll1_table;
pub mod minimization;
pub mod notation;
pub mod prediction_analyzer;
pub mod pushdown_automaton_grammar;
pub mod regular_grammar;
pub mod utils;
