//! Structured generation: mapping the tokens of a vocabulary to the transitions of an automaton.
pub mod args;
pub mod automaton;
pub mod error;
pub mod index;
pub mod primitives;
pub mod regex_dfa;
pub mod state_transitions;
pub mod vocabulary;
