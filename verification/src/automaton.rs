//! Deterministic automata over bytes, as far as building an index asks of them.
use vstd::prelude::*;

verus! {

/// State ids are below this number.
pub const STATE_LIMIT: u32 = 0x7FFF_FFFF;

/// What an automaton does.
pub struct Dfa {
    /// The ids of the states.
    pub states: Set<u32>,
    /// All ids are multiples of this number.
    pub stride: nat,
    /// The state in which every search from a fixed position begins, if there is a single one.
    pub start: Option<u32>,
    /// The state behind a byte.
    pub next: spec_fn(u32, u8) -> u32,
    /// The state behind the end of the input.
    pub at_end: spec_fn(u32) -> u32,
    /// States that report a match of what was read before the last step.
    pub matching: spec_fn(u32) -> bool,
    /// States that no match follows.
    pub dead: spec_fn(u32) -> bool,
    /// States in which the search was given up.
    pub quit: spec_fn(u32) -> bool,
}

impl Dfa {
    /// `state` is the id of a state.
    pub open spec fn is_state(self, state: u32) -> bool {
        &&& self.states.contains(state)
        &&& state < STATE_LIMIT
        &&& state as nat % self.stride == 0
    }

    /// The input may end in `state`: what was read matches.
    pub open spec fn accepts(self, state: u32) -> bool {
        (self.matching)((self.at_end)(state))
    }

    /// The state behind one more byte, if a token may go on there: not where the search is over,
    /// nor where a match lies behind that does not extend to the end.
    pub open spec fn step(self, state: u32, byte: u8) -> Option<u32> {
        let next = (self.next)(state, byte);
        if (self.dead)(next) || (self.quit)(next) {
            None
        } else if !(self.matching)(next) || self.accepts(next) {
            Some(next)
        } else {
            None
        }
    }

    /// The state behind `bytes`, if a token may go on behind each of them.
    pub open spec fn walk(self, state: u32, bytes: Seq<u8>) -> Option<u32>
        decreases bytes.len(),
    {
        if bytes.len() == 0 {
            Some(state)
        } else {
            match self.step(state, bytes[0]) {
                Some(next) => self.walk(next, bytes.skip(1)),
                None => None,
            }
        }
    }
}

/// To walk along two byte strings one after the other is to walk along their concatenation.
pub proof fn law_walk_concat(dfa: Dfa, state: u32, bytes: Seq<u8>, more: Seq<u8>)
    ensures
        dfa.walk(state, bytes + more) == match dfa.walk(state, bytes) {
            Some(next) => dfa.walk(next, more),
            None => None,
        },
    decreases bytes.len(),
{
    if bytes.len() == 0 {
        assert(bytes + more =~= more);
    } else {
        assert((bytes + more).skip(1) =~= bytes.skip(1) + more);
        assert((bytes + more)[0] == bytes[0]);
        if let Some(next) = dfa.step(state, bytes[0]) {
            law_walk_concat(dfa, next, bytes.skip(1), more);
        }
    }
}

/// A token may go on behind one more byte exactly if the automaton goes on with that byte, as it
/// is, to a state that is neither dead nor quit, and that is no match state unless the input may end
/// in it.
pub proof fn law_step_reads_the_byte(dfa: Dfa, state: u32, byte: u8, next: u32)
    ensures
        dfa.walk(state, seq![byte]) == Some(next) <==> {
            &&& next == (dfa.next)(state, byte)
            &&& !(dfa.dead)(next)
            &&& !(dfa.quit)(next)
            &&& !(dfa.matching)(next) || (dfa.matching)((dfa.at_end)(next))
        },
{
    reveal_with_fuel(Dfa::walk, 2);
    assert(seq![byte].skip(1).len() == 0);
}

/// The empty byte string is read everywhere, and stays in the state.
pub proof fn law_walk_nothing(dfa: Dfa, state: u32)
    ensures
        dfa.walk(state, Seq::empty()) == Some(state),
{
}

/// The input may end in a state exactly if the end of the input leads to a match state.
pub proof fn law_accepts_at_end(dfa: Dfa, state: u32)
    ensures
        dfa.accepts(state) <==> (dfa.matching)((dfa.at_end)(state)),
{
}

/// States that follow each other byte by byte, where a token may go on in each but the first, are
/// what a walk along the bytes comes through.
pub proof fn law_walk_follows_states(dfa: Dfa, bytes: Seq<u8>, states: Seq<u32>)
    requires
        states.len() == bytes.len() + 1,
        forall|i: int|
            #![trigger bytes[i]]
            0 <= i < bytes.len() ==> {
                let next = states[i + 1];
                &&& next == (dfa.next)(states[i], bytes[i])
                &&& !(dfa.dead)(next)
                &&& !(dfa.quit)(next)
                &&& !(dfa.matching)(next) || (dfa.matching)((dfa.at_end)(next))
            },
    ensures
        dfa.walk(states[0], bytes) == Some(states.last()),
    decreases bytes.len(),
{
    if bytes.len() > 0 {
        let rest = bytes.skip(1);
        let later = states.skip(1);
        assert(bytes[0] == bytes[0]);
        assert forall|i: int| #![trigger rest[i]] 0 <= i < rest.len() implies {
            let next = later[i + 1];
            &&& next == (dfa.next)(later[i], rest[i])
            &&& !(dfa.dead)(next)
            &&& !(dfa.quit)(next)
            &&& !(dfa.matching)(next) || (dfa.matching)((dfa.at_end)(next))
        } by {
            assert(rest[i] == bytes[i + 1]);
        }
        law_walk_follows_states(dfa, rest, later);
    }
}

/// A walk that comes to an end came through states that follow each other byte by byte, and a token
/// may go on in each of them but the first.
pub proof fn law_walk_has_states(dfa: Dfa, state: u32, bytes: Seq<u8>) -> (states: Seq<u32>)
    requires
        dfa.walk(state, bytes) is Some,
    ensures
        states.len() == bytes.len() + 1,
        states[0] == state,
        dfa.walk(state, bytes) == Some(states.last()),
        forall|i: int|
            #![trigger bytes[i]]
            0 <= i < bytes.len() ==> {
                let next = states[i + 1];
                &&& next == (dfa.next)(states[i], bytes[i])
                &&& !(dfa.dead)(next)
                &&& !(dfa.quit)(next)
                &&& !(dfa.matching)(next) || (dfa.matching)((dfa.at_end)(next))
            },
    decreases bytes.len(),
{
    if bytes.len() == 0 {
        seq![state]
    } else {
        let next = dfa.step(state, bytes[0])->0;
        let rest = bytes.skip(1);
        let later = law_walk_has_states(dfa, next, rest);
        let states = seq![state] + later;
        assert forall|i: int| #![trigger bytes[i]] 0 <= i < bytes.len() implies {
            let next = states[i + 1];
            &&& next == (dfa.next)(states[i], bytes[i])
            &&& !(dfa.dead)(next)
            &&& !(dfa.quit)(next)
            &&& !(dfa.matching)(next) || (dfa.matching)((dfa.at_end)(next))
        } by {
            if i > 0 {
                assert(rest[i - 1] == bytes[i]);
                assert(states[i] == later[i - 1] && states[i + 1] == later[i]);
            }
        }
        states
    }
}

/// An automaton that can be run.
pub trait Automaton {
    /// What the automaton does.
    spec fn model(&self) -> Dfa;

    /// The automaton is fit to be run.
    spec fn wf(&self) -> bool;

    /// The state in which every search from a fixed position begins, if there is a single one.
    fn start_state(&self) -> (r: Option<u32>)
        requires
            self.wf(),
        ensures
            r == self.model().start,
            r matches Some(state) ==> self.model().is_state(state),
    ;

    /// The number of which all state ids are multiples.
    fn stride(&self) -> (r: usize)
        requires
            self.wf(),
        ensures
            r > 0,
            r == self.model().stride,
    ;

    /// The state behind a byte.
    fn next_state(&self, state: u32, byte: u8) -> (r: u32)
        requires
            self.wf(),
            self.model().is_state(state),
        ensures
            r == (self.model().next)(state, byte),
            self.model().is_state(r),
    ;

    /// The state behind the end of the input.
    fn next_eoi_state(&self, state: u32) -> (r: u32)
        requires
            self.wf(),
            self.model().is_state(state),
        ensures
            r == (self.model().at_end)(state),
            self.model().is_state(r),
    ;

    fn is_match_state(&self, state: u32) -> (r: bool)
        requires
            self.wf(),
            self.model().is_state(state),
        ensures
            r == (self.model().matching)(state),
    ;

    fn is_dead_state(&self, state: u32) -> (r: bool)
        requires
            self.wf(),
            self.model().is_state(state),
        ensures
            r == (self.model().dead)(state),
    ;

    fn is_quit_state(&self, state: u32) -> (r: bool)
        requires
            self.wf(),
            self.model().is_state(state),
        ensures
            r == (self.model().quit)(state),
    ;
}

/// One state of a table.
#[derive(Clone, Debug)]
pub struct TableState {
    /// The states behind the bytes, one for each byte.
    pub next: Vec<u32>,
    /// The state behind the end of the input.
    pub at_end: u32,
    pub is_match: bool,
    pub is_dead: bool,
    pub is_quit: bool,
}

/// The states with ids below `count` are all that `state` leads to, and it has one for each byte.
pub open spec fn state_leads_below(state: TableState, count: nat) -> bool {
    &&& state.next@.len() == 256
    &&& state.at_end < count
    &&& forall|b: int| 0 <= b < 256 ==> #[trigger] state.next@[b] < count
}

/// The start state and the states that are led to stand in the table, and their ids are below the
/// limit.
pub open spec fn is_table(start: Option<u32>, states: Seq<TableState>) -> bool {
    &&& states.len() <= STATE_LIMIT
    &&& start matches Some(s) ==> s < states.len()
    &&& forall|i: int| 0 <= i < states.len() ==> state_leads_below(#[trigger] states[i], states.len())
}

/// What the table of `states` does, where each state has its place as its id.
pub open spec fn table_model(start: Option<u32>, states: Seq<TableState>) -> Dfa {
    Dfa {
        states: Set::new(|state: u32| state < states.len()),
        stride: 1,
        start,
        next: |state: u32, byte: u8| states[state as int].next@[byte as int],
        at_end: |state: u32| states[state as int].at_end,
        matching: |state: u32| states[state as int].is_match,
        dead: |state: u32| states[state as int].is_dead,
        quit: |state: u32| states[state as int].is_quit,
    }
}

/// A table does what its entries say: each state goes on with a byte to the state that it lists at
/// that byte, with the end of the input to the one that it lists for the end, and is of the kinds
/// that it is marked with.
pub proof fn law_table_goes_by_entries(start: Option<u32>, states: Seq<TableState>, state: u32, byte: u8)
    ensures
        table_model(start, states).start == start,
        (table_model(start, states).next)(state, byte) == states[state as int].next@[byte as int],
        (table_model(start, states).at_end)(state) == states[state as int].at_end,
        (table_model(start, states).matching)(state) == states[state as int].is_match,
        (table_model(start, states).dead)(state) == states[state as int].is_dead,
        (table_model(start, states).quit)(state) == states[state as int].is_quit,
        table_model(start, states).is_state(state) <==> state < states.len() && state < 0x7FFF_FFFF,
{
    assert(state as nat % 1 == 0);
}

/// States make a table exactly if there are not too many of them, and each of them, and the start,
/// leads to states of the table only.
pub proof fn law_tables(start: Option<u32>, states: Seq<TableState>)
    ensures
        is_table(start, states) <==> {
            &&& states.len() <= 0x7FFF_FFFF
            &&& start is Some ==> start->0 < states.len()
            &&& forall|i: int| #![trigger states[i]]
                0 <= i < states.len() ==> states[i].next@.len() == 256 && states[i].at_end < states.len()
            &&& forall|i: int, b: int| #![trigger states[i].next@[b]]
                0 <= i < states.len() && 0 <= b < 256 ==> states[i].next@[b] < states.len()
        },
{
    if is_table(start, states) {
        assert forall|i: int| #![trigger states[i]] 0 <= i < states.len() implies states[i].next@.len() == 256
            && states[i].at_end < states.len() by {
            assert(state_leads_below(states[i], states.len()));
        }
        assert forall|i: int, b: int| #![trigger states[i].next@[b]] 0 <= i < states.len() && 0 <= b < 256 implies states[i].next@[b]
            < states.len() by {
            assert(state_leads_below(states[i], states.len()));
        }
    }
}

/// An automaton given by a table of its states, in which each state has its place as its id.
#[derive(Clone, Debug)]
pub struct TableAutomaton {
    start: Option<u32>,
    states: Vec<TableState>,
}

impl TableAutomaton {
    /// An automaton with the given states, unless one of them leads out of the table.
    pub fn new(start: Option<u32>, states: Vec<TableState>) -> (r: Option<TableAutomaton>)
        ensures
            r is Some == is_table(start, states@),
            r matches Some(table) ==> table.wf() && table.model() == table_model(start, states@),
    {
        if states.len() > STATE_LIMIT as usize {
            return None;
        }
        if let Some(s) = start {
            if s as usize >= states.len() {
                return None;
            }
        }
        let mut i: usize = 0;
        while i < states.len()
            invariant
                i <= states@.len(),
                states@.len() <= STATE_LIMIT,
                forall|j: int| 0 <= j < i ==> state_leads_below(#[trigger] states@[j], states@.len()),
            decreases states@.len() - i,
        {
            if !Self::leads_below(&states[i], states.len()) {
                return None;
            }
            i += 1;
        }
        Some(TableAutomaton { start, states })
    }

    /// Does `state` have a state below `count` for each byte and for the end?
    fn leads_below(state: &TableState, count: usize) -> (r: bool)
        ensures
            r == state_leads_below(*state, count as nat),
    {
        if state.next.len() != 256 || state.at_end as usize >= count {
            return false;
        }
        let mut b: usize = 0;
        while b < 256
            invariant
                b <= 256,
                state.next@.len() == 256,
                forall|c: int| 0 <= c < b ==> #[trigger] state.next@[c] < count,
            decreases 256 - b,
        {
            if state.next[b] as usize >= count {
                return false;
            }
            b += 1;
        }
        true
    }
}

impl Automaton for TableAutomaton {
    closed spec fn model(&self) -> Dfa {
        table_model(self.start, self.states@)
    }

    closed spec fn wf(&self) -> bool {
        is_table(self.start, self.states@)
    }

    fn start_state(&self) -> (r: Option<u32>) {
        self.start
    }

    fn stride(&self) -> (r: usize) {
        1
    }

    fn next_state(&self, state: u32, byte: u8) -> (r: u32) {
        assert(state_leads_below(self.states@[state as int], self.states@.len()));
        self.states[state as usize].next[byte as usize]
    }

    fn next_eoi_state(&self, state: u32) -> (r: u32) {
        assert(state_leads_below(self.states@[state as int], self.states@.len()));
        self.states[state as usize].at_end
    }

    fn is_match_state(&self, state: u32) -> (r: bool) {
        self.states[state as usize].is_match
    }

    fn is_dead_state(&self, state: u32) -> (r: bool) {
        self.states[state as usize].is_dead
    }

    fn is_quit_state(&self, state: u32) -> (r: bool) {
        self.states[state as usize].is_quit
    }
}

} // verus!
