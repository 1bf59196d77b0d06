//! What can go wrong.
use vstd::prelude::*;

verus! {

/// The errors of this crate.
#[derive(Debug)]
pub enum Error {
    /// No automaton could be built for a regular expression.
    IndexDfaError(Box<regex_automata::dfa::dense::BuildError>),
    /// The automaton of a regular expression has no single start state.
    DfaHasNoStartState,
    /// The end-of-sequence token cannot be given bytes.
    EOSTokenDisallowed,
    /// The token id does not fit the nodes of a trie.
    TokenIdTooLarge,
    /// The trie of a vocabulary does not fit the fields of its nodes.
    VocabularyTooLarge,
}

/// The result of what can go wrong.
pub type Result<T> = std::result::Result<T, Error>;

} // verus!
