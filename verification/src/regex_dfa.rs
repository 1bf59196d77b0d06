//! Automata of regular expressions.
//!
//! The crate `regex-automata` builds and runs them. What it computes is not proved here: each of
//! its functions that is called stands behind a function of this module that says what is taken for
//! granted.
use regex_automata::dfa::dense::{BuildError, DFA};
use vstd::prelude::*;

use crate::automaton::{Automaton, Dfa, STATE_LIMIT};

verus! {

/// The dense automata of `regex-automata`.
#[verifier::external_type_specification]
#[verifier::external_body]
#[verifier::reject_recursive_types(T)]
pub struct ExDenseDfa<T>(DFA<T>);

/// The errors of building them.
#[verifier::external_type_specification]
#[verifier::external_body]
pub struct ExBuildError(BuildError);

/// The pattern that `DFA::new` compiled `dfa` from. This module makes automata in no other way.
pub uninterp spec fn dfa_pattern(dfa: DFA<Vec<u32>>) -> Seq<char>;

/// `DFA::new` can compile `pattern`.
pub uninterp spec fn regex_compiles(pattern: Seq<char>) -> bool;

/// The ids of the states of the automaton of `pattern`.
pub uninterp spec fn regex_states(pattern: Seq<char>) -> Set<u32>;

/// What `DFA::stride` returns for the automaton of `pattern`.
pub uninterp spec fn regex_stride(pattern: Seq<char>) -> nat;

/// What `universal_start_state` returns for anchored searches with the automaton of `pattern`.
pub uninterp spec fn regex_start_state(pattern: Seq<char>) -> Option<u32>;

/// What `next_state` returns for the automaton of `pattern`.
pub uninterp spec fn regex_next_state(pattern: Seq<char>, state: u32, byte: u8) -> u32;

/// What `next_eoi_state` returns for the automaton of `pattern`.
pub uninterp spec fn regex_next_eoi_state(pattern: Seq<char>, state: u32) -> u32;

/// What `is_match_state` returns for the automaton of `pattern`.
pub uninterp spec fn regex_is_match_state(pattern: Seq<char>, state: u32) -> bool;

/// What `is_quit_state` returns for the automaton of `pattern`.
pub uninterp spec fn regex_is_quit_state(pattern: Seq<char>, state: u32) -> bool;

/// What the automaton of `pattern` does. Its dead state has the id 0.
pub open spec fn regex_model(pattern: Seq<char>) -> Dfa {
    Dfa {
        states: regex_states(pattern),
        stride: regex_stride(pattern),
        start: regex_start_state(pattern),
        next: |state: u32, byte: u8| regex_next_state(pattern, state, byte),
        at_end: |state: u32| regex_next_eoi_state(pattern, state),
        matching: |state: u32| regex_is_match_state(pattern, state),
        dead: |state: u32| state == 0,
        quit: |state: u32| regex_is_quit_state(pattern, state),
    }
}

/// What is said of the automaton of a regular expression is what the calls return, for the state
/// and the byte as they are.
pub proof fn law_regex_goes_by_calls(pattern: Seq<char>, state: u32, byte: u8)
    ensures
        regex_model(pattern).start == regex_start_state(pattern),
        (regex_model(pattern).next)(state, byte) == regex_next_state(pattern, state, byte),
        (regex_model(pattern).at_end)(state) == regex_next_eoi_state(pattern, state),
        (regex_model(pattern).matching)(state) == regex_is_match_state(pattern, state),
        (regex_model(pattern).dead)(state) == (state == 0),
        (regex_model(pattern).quit)(state) == regex_is_quit_state(pattern, state),
{
}

/// Calls `DFA::new`, which either compiles a pattern or says why it cannot. Which of the two, and
/// what the automaton is, depend on the pattern alone. Nothing is said of which byte strings the
/// automaton accepts.
#[verifier::external_body]
fn dfa_new(pattern: &str) -> (r: Result<DFA<Vec<u32>>, BuildError>)
    ensures
        r is Ok == regex_compiles(pattern@),
        r matches Ok(dfa) ==> dfa_pattern(dfa) == pattern@,
{
    DFA::new(pattern)
}

/// Calls `DFA::stride`, the distance between the ids of neighbouring states, which is a power of
/// two and therefore not 0.
#[verifier::external_body]
fn dfa_stride(dfa: &DFA<Vec<u32>>) -> (r: usize)
    ensures
        r > 0,
        r == regex_stride(dfa_pattern(*dfa)),
{
    dfa.stride()
}

/// Calls `Automaton::universal_start_state` for anchored searches. It gives a state of the
/// automaton or none. Ids of states are multiples of the stride, and below the limit of `StateID`.
#[verifier::external_body]
fn dfa_universal_start_state(dfa: &DFA<Vec<u32>>) -> (r: Option<u32>)
    ensures
        r == regex_start_state(dfa_pattern(*dfa)),
        r matches Some(state) ==> {
            &&& regex_states(dfa_pattern(*dfa)).contains(state)
            &&& state < STATE_LIMIT
            &&& state as nat % regex_stride(dfa_pattern(*dfa)) == 0
        },
{
    regex_automata::dfa::Automaton::universal_start_state(dfa, regex_automata::Anchored::Yes).map(
        |state| state.as_u32(),
    )
}

/// Calls `Automaton::next_state`. From a state of the automaton every byte leads to one,
/// whose id is again a multiple of the stride, and below the limit of `StateID`.
#[verifier::external_body]
fn dfa_next_state(dfa: &DFA<Vec<u32>>, state: u32, byte: u8) -> (r: u32)
    requires
        regex_states(dfa_pattern(*dfa)).contains(state),
        state < STATE_LIMIT,
    ensures
        r == regex_next_state(dfa_pattern(*dfa), state, byte),
        regex_states(dfa_pattern(*dfa)).contains(r),
        r < STATE_LIMIT,
        r as nat % regex_stride(dfa_pattern(*dfa)) == 0,
{
    let id = regex_automata::util::primitives::StateID::must(state as usize);
    regex_automata::dfa::Automaton::next_state(dfa, id, byte).as_u32()
}

/// Calls `Automaton::next_eoi_state`. From a state of the automaton the end of the input leads to
/// one, whose id is again a multiple of the stride, and below the limit of `StateID`.
#[verifier::external_body]
fn dfa_next_eoi_state(dfa: &DFA<Vec<u32>>, state: u32) -> (r: u32)
    requires
        regex_states(dfa_pattern(*dfa)).contains(state),
        state < STATE_LIMIT,
    ensures
        r == regex_next_eoi_state(dfa_pattern(*dfa), state),
        regex_states(dfa_pattern(*dfa)).contains(r),
        r < STATE_LIMIT,
        r as nat % regex_stride(dfa_pattern(*dfa)) == 0,
{
    let id = regex_automata::util::primitives::StateID::must(state as usize);
    regex_automata::dfa::Automaton::next_eoi_state(dfa, id).as_u32()
}

/// Calls `Automaton::is_match_state`. The dead state is none.
#[verifier::external_body]
fn dfa_is_match_state(dfa: &DFA<Vec<u32>>, state: u32) -> (r: bool)
    requires
        state < STATE_LIMIT,
    ensures
        r == regex_is_match_state(dfa_pattern(*dfa), state),
        state == 0 ==> !r,
{
    let id = regex_automata::util::primitives::StateID::must(state as usize);
    regex_automata::dfa::Automaton::is_match_state(dfa, id)
}

/// Calls `Automaton::is_dead_state`. It compares the id with 0.
#[verifier::external_body]
fn dfa_is_dead_state(dfa: &DFA<Vec<u32>>, state: u32) -> (r: bool)
    requires
        state < STATE_LIMIT,
    ensures
        r == (state == 0),
{
    let id = regex_automata::util::primitives::StateID::must(state as usize);
    regex_automata::dfa::Automaton::is_dead_state(dfa, id)
}

/// Calls `Automaton::is_quit_state`. The dead state is none.
#[verifier::external_body]
fn dfa_is_quit_state(dfa: &DFA<Vec<u32>>, state: u32) -> (r: bool)
    requires
        state < STATE_LIMIT,
    ensures
        r == regex_is_quit_state(dfa_pattern(*dfa), state),
        state == 0 ==> !r,
{
    let id = regex_automata::util::primitives::StateID::must(state as usize);
    regex_automata::dfa::Automaton::is_quit_state(dfa, id)
}

/// The automaton of a regular expression.
pub struct RegexDfa {
    dfa: DFA<Vec<u32>>,
}

impl RegexDfa {
    /// The regular expression.
    pub closed spec fn pattern(&self) -> Seq<char> {
        dfa_pattern(self.dfa)
    }

    /// Builds the automaton of a regular expression.
    pub fn new(pattern: &str) -> (r: Result<RegexDfa, BuildError>)
        ensures
            r is Ok == regex_compiles(pattern@),
            r matches Ok(automaton) ==> {
                &&& automaton.wf()
                &&& automaton.pattern() == pattern@
                &&& automaton.model() == regex_model(pattern@)
            },
    {
        match dfa_new(pattern) {
            Ok(dfa) => Ok(RegexDfa { dfa }),
            Err(error) => Err(error),
        }
    }
}

impl Automaton for RegexDfa {
    closed spec fn model(&self) -> Dfa {
        regex_model(dfa_pattern(self.dfa))
    }

    open spec fn wf(&self) -> bool {
        true
    }

    fn start_state(&self) -> (r: Option<u32>) {
        dfa_universal_start_state(&self.dfa)
    }

    fn stride(&self) -> (r: usize) {
        dfa_stride(&self.dfa)
    }

    fn next_state(&self, state: u32, byte: u8) -> (r: u32) {
        dfa_next_state(&self.dfa, state, byte)
    }

    fn next_eoi_state(&self, state: u32) -> (r: u32) {
        dfa_next_eoi_state(&self.dfa, state)
    }

    fn is_match_state(&self, state: u32) -> (r: bool) {
        dfa_is_match_state(&self.dfa, state)
    }

    fn is_dead_state(&self, state: u32) -> (r: bool) {
        dfa_is_dead_state(&self.dfa, state)
    }

    fn is_quit_state(&self, state: u32) -> (r: bool) {
        dfa_is_quit_state(&self.dfa, state)
    }
}

} // verus!
