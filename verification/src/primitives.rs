//! The identifiers that the whole crate speaks of.
use vstd::prelude::*;

verus! {

/// Number of a token in a vocabulary.
pub type TokenId = u32;

/// Number of a state of an [`Index`](crate::index::Index).
pub type StateId = u32;

} // verus!
