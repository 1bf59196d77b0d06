//! Building an `Index` to efficiently map vocabulary tokens to state transitions.
pub mod laws;
mod numbering;
pub mod reach;
pub mod text;
mod walk;

use vstd::prelude::*;

use crate::automaton::{Automaton, Dfa, STATE_LIMIT};
use crate::error::{Error, Result};
use crate::index::numbering::Numbering;
use crate::index::reach::{found_after, hits, index_finals, index_row, index_rows, index_states, lemma_found_all, lemma_found_once, lemma_hit_count, lemma_hits, lemma_with_targets, numbered, reads, Hit};
use crate::index::text::{index_text, text_of};
use crate::index::walk::{lemma_row_leads, read_tokens, row_leads};
use crate::primitives::{StateId, TokenId};
use crate::regex_dfa::{regex_compiles, regex_model, RegexDfa};
use crate::state_transitions::{law_lookup_reads_entries, law_table_sound, row_distinct, row_lookup, Row, StateTransitions, Tokens};
use crate::vocabulary::flat::{contents, law_path_leads_back, path_at, well_formed};
use crate::vocabulary::node::{TrieNode, NO_TOKEN, SIZE_LIMIT};
use crate::vocabulary::trie::{flat_trie, Trie};
use crate::vocabulary::words::{encodable, law_tokens_distinct, trie_nodes};
use crate::vocabulary::Vocabulary;

verus! {

/// The number of token ids up to the greatest one of `words` and `eos`.
pub open spec fn id_count(words: Seq<Seq<u8>>, eos: TokenId) -> int {
    if words.len() > eos {
        words.len() as int
    } else {
        eos + 1
    }
}

/// The places below `n` at which `flags` are set.
pub open spec fn places(flags: Seq<bool>, n: nat) -> Seq<StateId>
    decreases n,
{
    if n == 0 {
        Seq::empty()
    } else if flags[n - 1] {
        places(flags, (n - 1) as nat).push((n - 1) as StateId)
    } else {
        places(flags, (n - 1) as nat)
    }
}

/// The listed places are exactly those at which a flag is set.
pub proof fn law_places_list_flags(flags: Seq<bool>, n: nat, place: StateId)
    requires
        n <= flags.len(),
        n <= 0x1_0000_0000,
    ensures
        places(flags, n).contains(place) <==> place < n && flags[place as int],
    decreases n,
{
    if n > 0 {
        let fewer = places(flags, (n - 1) as nat);
        law_places_list_flags(flags, (n - 1) as nat, place);
        if flags[n - 1] {
            let all = fewer.push((n - 1) as StateId);
            if fewer.contains(place) {
                let i = choose|i: int| 0 <= i < fewer.len() && fewer[i] == place;
                assert(all[i] == place);
            }
            if all.contains(place) {
                let i = choose|i: int| 0 <= i < all.len() && all[i] == place;
                assert(i < fewer.len() ==> fewer[i] == place);
            }
            assert(all.last() == (n - 1) as StateId);
        }
    }
}

/// The listed places ascend.
pub proof fn law_places_ascend(flags: Seq<bool>, n: nat, i: int, j: int)
    requires
        n <= flags.len(),
        n <= 0x1_0000_0000,
        0 <= i < j < places(flags, n).len(),
    ensures
        places(flags, n)[i] < places(flags, n)[j] < n,
    decreases n,
{
    if n > 0 {
        let fewer = places(flags, (n - 1) as nat);
        if flags[n - 1] && j == fewer.len() {
            law_places_list_flags(flags, (n - 1) as nat, fewer[i]);
            assert(fewer.contains(fewer[i]));
        } else {
            law_places_ascend(flags, (n - 1) as nat, i, j);
        }
    }
}

/// The tokens of a row are those of its entries, in their order: a token is listed exactly if an
/// entry has it, and once where no token occurs twice.
pub proof fn law_row_tokens(row: Row, token: TokenId)
    ensures
        row_tokens(row).len() == row.len(),
        forall|i: int| 0 <= i < row.len() ==> #[trigger] row_tokens(row)[i] == row[i].0,
        row_tokens(row).contains(token) <==> exists|i: int| 0 <= i < row.len() && (#[trigger] row[i]).0 == token,
        (forall|i: int, j: int| 0 <= i < j < row.len() ==> (#[trigger] row[i]).0 != (#[trigger] row[j]).0)
            ==> row_tokens(row).no_duplicates(),
{
    let tokens = row_tokens(row);
    if tokens.contains(token) {
        let i = choose|i: int| 0 <= i < tokens.len() && tokens[i] == token;
        assert(row[i].0 == token);
    }
    if exists|i: int| 0 <= i < row.len() && (#[trigger] row[i]).0 == token {
        let i = choose|i: int| 0 <= i < row.len() && (#[trigger] row[i]).0 == token;
        assert(tokens[i] == token);
    }
    if forall|i: int, j: int| 0 <= i < j < row.len() ==> (#[trigger] row[i]).0 != (#[trigger] row[j]).0 {
        assert forall|i: int, j: int| 0 <= i < tokens.len() && 0 <= j < tokens.len() && i != j implies tokens[i]
            != tokens[j] by {
            if i < j {
                assert(row[i].0 != row[j].0);
            } else {
                assert(row[j].0 != row[i].0);
            }
        }
    }
}

/// A token leads on exactly if it is not the one that ends a sequence and the state has an entry for
/// it, and then to the state of such an entry.
pub proof fn law_next_state_reads_entries(rows: Seq<Row>, eos: TokenId, state: StateId, token: TokenId)
    ensures
        match row_next(rows, eos, state, token) {
            Some(next) => {
                &&& token != eos
                &&& state < rows.len()
                &&& exists|i: int|
                    0 <= i < rows[state as int].len() && #[trigger] rows[state as int][i] == (token, next)
            },
            None => {
                ||| token == eos
                ||| state >= rows.len()
                ||| forall|i: int|
                    0 <= i < rows[state as int].len() ==> (#[trigger] rows[state as int][i]).0 != token
            },
        },
{
    if state < rows.len() {
        law_lookup_reads_entries(rows[state as int], token);
    }
}

/// The vocabulary size exceeds every token id, and is no greater than that asks for.
pub proof fn law_id_count(words: Seq<Seq<u8>>, eos: TokenId)
    ensures
        id_count(words, eos) >= words.len(),
        id_count(words, eos) > eos,
        id_count(words, eos) == words.len() || id_count(words, eos) == eos + 1,
{
}

/// The tokens of `row`.
pub open spec fn row_tokens(row: Row) -> Seq<TokenId> {
    Seq::new(row.len(), |i: int| row[i].0)
}

/// The state that `token` leads to from `state`, if any. The token that ends a sequence leads to
/// none.
pub open spec fn row_next(rows: Seq<Row>, eos: TokenId, state: StateId, token: TokenId) -> Option<StateId> {
    if token != eos && state < rows.len() {
        row_lookup(rows[state as int], token)
    } else {
        None
    }
}

/// Different nodes of the trie of a list of words end different tokens.
proof fn lemma_tokens_apart(nodes: Seq<TrieNode>, words: Seq<Seq<u8>>, t: int, u: int)
    requires
        well_formed(nodes),
        contents(nodes) == trie_nodes(words),
        words.len() <= u32::MAX,
        0 <= t < nodes.len(),
        0 <= u < nodes.len(),
        nodes[t].token() is Some,
        nodes[t].token() == nodes[u].token(),
    ensures
        t == u,
{
    law_path_leads_back(nodes, t);
    law_path_leads_back(nodes, u);
    let path = path_at(nodes, t);
    let other = path_at(nodes, u);
    assert(contents(nodes).contains_key(path) && contents(nodes)[path] == nodes[t].token());
    assert(contents(nodes).contains_key(other) && contents(nodes)[other] == nodes[u].token());
    law_tokens_distinct(words, path, other);
}

/// The entries for the tokens that can be read from a state have different tokens, and are not more
/// than the nodes of the trie.
pub(crate) proof fn lemma_row(
    dfa: Dfa,
    nodes: Seq<TrieNode>,
    words: Seq<Seq<u8>>,
    states: Seq<u32>,
    state: u32,
    row: Row,
)
    requires
        well_formed(nodes),
        contents(nodes) == trie_nodes(words),
        words.len() <= u32::MAX,
        row_leads(row, nodes, states, hits(dfa, nodes, state)),
    ensures
        row_distinct(row),
        row.len() < nodes.len(),
{
    let reached = hits(dfa, nodes, state);
    let n = nodes.len() as int;
    lemma_hits(dfa, nodes, 1, n, 1, state);
    lemma_hit_count(dfa, nodes, 1, n, state);
    assert forall|i: int, j: int| 0 <= i < j < row.len() implies (#[trigger] row[i]).0 != (#[trigger] row[j]).0 by {
        assert(reached[i].0 != reached[j].0);
        assert(reached.contains(reached[i]));
        assert(reached.contains(reached[j]));
        assert(reads(dfa, nodes, 1, n, state, reached[i]));
        assert(reads(dfa, nodes, 1, n, state, reached[j]));
        if row[i].0 == row[j].0 {
            lemma_tokens_apart(nodes, words, reached[i].0, reached[j].0);
        }
    }
}

/// Where no state occurs twice, the number of a state is its place.
proof fn lemma_numbered(nodes: Seq<TrieNode>, states: Seq<u32>, reached: Seq<Hit>, row: Row)
    requires
        row_leads(row, nodes, states, reached),
        states.no_duplicates(),
    ensures
        row == numbered(nodes, states, reached),
{
    assert forall|j: int| 0 <= j < row.len() implies #[trigger] row[j] == numbered(nodes, states, reached)[j] by {
        let k = row[j].1 as int;
        assert(states[k] == reached[j].1);
        assert(states.contains(reached[j].1));
        assert(states[states.index_of(reached[j].1)] == reached[j].1);
    }
    assert(row =~= numbered(nodes, states, reached));
}

/// `Index` efficiently maps vocabulary tokens to state transitions.
#[derive(Clone, Debug, PartialEq)]
pub struct Index {
    /// The ID of the initial state in the automaton, processing begins from this state.
    initial_state: StateId,
    /// Marker for terminal states, indexed by state id.
    final_states: Vec<bool>,
    /// Transition tables for each state.
    transitions: Vec<StateTransitions>,
    /// The token ID reserved for the "end-of-sequence" token.
    eos_token_id: TokenId,
    /// The size of the vocabulary used to build the index.
    vocab_size: usize,
}

/// The `Index` structure is designed to efficiently map tokens from a given vocabulary
/// to state transitions within a finite-state automaton.
///
/// It is typically constructed by combining a vocabulary and a regular expression. Once built, it
/// can be used to efficiently evaluate token sequences or to validate input data.
impl Index {
    /// The state that processing begins from.
    pub closed spec fn initial(&self) -> StateId {
        self.initial_state
    }

    /// Which states are final, by state id.
    pub closed spec fn finals(&self) -> Seq<bool> {
        self.final_states@
    }

    /// The transitions that leave the states, by state id.
    pub closed spec fn rows(&self) -> Seq<Row> {
        Seq::new(self.transitions@.len(), |k: int| self.transitions@[k]@)
    }

    /// The token that ends a sequence.
    pub closed spec fn eos(&self) -> TokenId {
        self.eos_token_id
    }

    /// The number of token ids up to the greatest one.
    pub closed spec fn size(&self) -> usize {
        self.vocab_size
    }

    /// Every state has a transition table in order, and it is known whether it is final.
    pub closed spec fn wf(&self) -> bool {
        &&& self.final_states@.len() == self.transitions@.len()
        &&& self.transitions@.len() <= STATE_LIMIT
        &&& forall|k: int| 0 <= k < self.transitions@.len() ==> (#[trigger] self.transitions@[k]).wf()
    }

    /// This is the index of the automaton `dfa` for the tokens `words`.
    pub open spec fn describes(&self, dfa: Dfa, words: Seq<Seq<u8>>, eos: TokenId) -> bool {
        &&& self.wf()
        &&& well_formed(flat_trie(words))
        &&& contents(flat_trie(words)) == trie_nodes(words)
        &&& self.initial() == 0
        &&& self.finals() == index_finals(dfa, flat_trie(words))
        &&& self.rows() == index_rows(dfa, flat_trie(words), eos)
        &&& self.eos() == eos
        &&& self.size() == id_count(words, eos)
    }

    /// Of every index it is known which states are final, there are not more states than ids, and
    /// no token occurs twice among the transitions of a state.
    pub(crate) proof fn lemma_in_order(&self)
        requires
            self.wf(),
        ensures
            self.finals().len() == self.rows().len() <= STATE_LIMIT,
            forall|k: int| 0 <= k < self.rows().len() ==> row_distinct(#[trigger] self.rows()[k]),
    {
        assert forall|k: int| 0 <= k < self.rows().len() implies row_distinct(#[trigger] self.rows()[k]) by {
            law_table_sound(self.transitions@[k]);
        }
    }

    /// Builds an `Index` from regular expression and vocabulary tokens.
    pub fn new(regex: &str, vocabulary: &Vocabulary) -> (r: Result<Self>)
        requires
            vocabulary.wf(),
            vocabulary.eos() < usize::MAX,
        ensures
            match r {
                Ok(index) => {
                    &&& regex_compiles(regex@)
                    &&& regex_model(regex@).start is Some
                    &&& encodable(vocabulary.words())
                    &&& index.describes(regex_model(regex@), vocabulary.words(), vocabulary.eos())
                },
                Err(Error::IndexDfaError(_)) => !regex_compiles(regex@),
                Err(Error::DfaHasNoStartState) => {
                    &&& regex_compiles(regex@)
                    &&& regex_model(regex@).start is None
                },
                Err(Error::VocabularyTooLarge) => {
                    &&& regex_compiles(regex@)
                    &&& regex_model(regex@).start is Some
                    &&& !encodable(vocabulary.words())
                },
                Err(_) => false,
            },
    {
        match RegexDfa::new(regex) {
            Ok(dfa) => Self::from_automaton(&dfa, vocabulary),
            Err(error) => Err(Error::IndexDfaError(Box::new(error))),
        }
    }

    /// Builds an `Index` from an automaton and vocabulary tokens.
    pub fn from_automaton<A: Automaton>(automaton: &A, vocabulary: &Vocabulary) -> (r: Result<Self>)
        requires
            automaton.wf(),
            vocabulary.wf(),
            vocabulary.eos() < usize::MAX,
        ensures
            match r {
                Ok(index) => {
                    &&& automaton.model().start is Some
                    &&& encodable(vocabulary.words())
                    &&& index.describes(automaton.model(), vocabulary.words(), vocabulary.eos())
                },
                Err(Error::DfaHasNoStartState) => automaton.model().start is None,
                Err(Error::VocabularyTooLarge) => {
                    &&& automaton.model().start is Some
                    &&& !encodable(vocabulary.words())
                },
                Err(_) => false,
            },
    {
        let eos_token_id: TokenId = vocabulary.eos_token_id();
        let max_token_id: TokenId = match vocabulary.max_token_id() {
            Some(id) => if id > eos_token_id {
                id
            } else {
                eos_token_id
            },
            None => eos_token_id,
        };
        let vocab_size: usize = max_token_id as usize + 1;
        let start_state: u32 = match automaton.start_state() {
            Some(state) => state,
            None => {
                return Err(Error::DfaHasNoStartState);
            },
        };
        let trie: Trie = match vocabulary.trie() {
            Some(trie) => trie,
            None => {
                return Err(Error::VocabularyTooLarge);
            },
        };
        let ghost dfa = automaton.model();
        let ghost nodes = trie.layout();
        let ghost words = vocabulary.words();
        let mut numbering: Numbering = Numbering::new(start_state, automaton.stride());
        let mut transitions: Vec<StateTransitions> = Vec::new();
        let mut final_states: Vec<bool> = Vec::new();
        let mut current: usize = 0;
        proof {
            numbering.lemma_count();
        }
        while current < numbering.states.len()
            invariant
                automaton.wf(),
                dfa == automaton.model(),
                trie.wf(),
                nodes == trie.layout(),
                contents(nodes) == trie_nodes(words),
                words.len() <= NO_TOKEN,
                numbering.wf(),
                numbering.stride == dfa.stride,
                numbering.states@.len() <= STATE_LIMIT,
                current <= numbering.states@.len(),
                numbering.states@ == found_after(dfa, nodes, current as nat),
                forall|k: int| 0 <= k < numbering.states@.len() ==> dfa.is_state(#[trigger] numbering.states@[k]),
                final_states@.len() == current,
                transitions@.len() == current,
                forall|k: int|
                    0 <= k < current ==> #[trigger] final_states@[k] == dfa.accepts(numbering.states@[k]),
                forall|k: int|
                    0 <= k < current ==> (#[trigger] transitions@[k]).wf() && row_leads(
                        transitions@[k]@,
                        nodes,
                        numbering.states@,
                        hits(dfa, nodes, numbering.states@[k]),
                    ),
            decreases STATE_LIMIT - current,
        {
            let ghost known = numbering.states@;
            let ghost rows_before = transitions@;
            let state: u32 = numbering.states[current];
            final_states.push(automaton.is_match_state(automaton.next_eoi_state(state)));
            let row: Vec<(TokenId, StateId)> = read_tokens(automaton, &trie, state, &mut numbering);
            let ghost reached = hits(dfa, nodes, state);
            proof {
                lemma_found_once(dfa, nodes, current as nat);
                lemma_with_targets(known, reached);
                numbering.lemma_count();
                lemma_row(dfa, nodes, words, numbering.states@, state, row@);
                assert forall|k: int| 0 <= k < known.len() implies numbering.states@[k] == #[trigger] known[k] by {
                    assert(numbering.states@.take(known.len() as int)[k] == numbering.states@[k]);
                }
                assert forall|k: int| 0 <= k < numbering.states@.len() implies dfa.is_state(
                    #[trigger] numbering.states@[k],
                ) by {
                    if k < known.len() {
                        assert(dfa.is_state(known[k]));
                    }
                }
            }
            if row.len() == 0 {
                transitions.push(StateTransitions::new());
                assert(transitions@[current as int]@ =~= row@);
            } else {
                transitions.push(StateTransitions::bulk_build(row.as_slice()));
            }
            proof {
                assert forall|k: int| 0 <= k < current + 1 implies (#[trigger] transitions@[k]).wf() && row_leads(
                    transitions@[k]@,
                    nodes,
                    numbering.states@,
                    hits(dfa, nodes, numbering.states@[k]),
                ) by {
                    if k < current {
                        assert(transitions@[k] == rows_before[k]);
                        lemma_row_leads(
                            transitions@[k]@,
                            nodes,
                            known,
                            hits(dfa, nodes, known[k]),
                            numbering.states@,
                        );
                    }
                }
            }
            current += 1;
        }
        let ghost states = numbering.states@;
        proof {
            numbering.lemma_count();
            lemma_found_all(dfa, nodes, current as nat, STATE_LIMIT as nat);
            assert(states == index_states(dfa, nodes));
            assert forall|k: int| 0 <= k < current implies (#[trigger] transitions@[k])@ == numbered(
                nodes,
                states,
                hits(dfa, nodes, states[k]),
            ) && row_distinct(transitions@[k]@) && transitions@[k]@.len() < SIZE_LIMIT by {
                lemma_row(dfa, nodes, words, states, states[k], transitions@[k]@);
                lemma_numbered(nodes, states, hits(dfa, nodes, states[k]), transitions@[k]@);
            }
        }
        let mut state_idx: usize = 0;
        while state_idx < final_states.len()
            invariant
                states == index_states(dfa, nodes),
                final_states@.len() == states.len(),
                transitions@.len() == states.len(),
                states.len() <= STATE_LIMIT,
                state_idx <= states.len(),
                forall|k: int| 0 <= k < states.len() ==> #[trigger] final_states@[k] == dfa.accepts(states[k]),
                forall|k: int| 0 <= k < states.len() ==> (#[trigger] transitions@[k]).wf(),
                forall|k: int|
                    state_idx <= k < states.len() ==> (#[trigger] transitions@[k])@ == numbered(
                        nodes,
                        states,
                        hits(dfa, nodes, states[k]),
                    ) && row_distinct(transitions@[k]@) && transitions@[k]@.len() < SIZE_LIMIT,
                forall|k: int|
                    0 <= k < state_idx ==> (#[trigger] transitions@[k])@ == index_row(dfa, nodes, eos_token_id, k),
            decreases states.len() - state_idx,
        {
            if final_states[state_idx] {
                transitions[state_idx].insert(eos_token_id, state_idx as StateId);
            }
            state_idx += 1;
        }
        let index = Index { initial_state: 0, final_states, transitions, eos_token_id, vocab_size };
        proof {
            assert(index.finals() =~= index_finals(dfa, nodes));
            assert(index.rows() =~= index_rows(dfa, nodes, eos_token_id));
        }
        Ok(index)
    }

    /// Puts an index together from its parts, unless there are too many states, or it is not known
    /// of each of them whether it is final.
    pub fn from_parts(
        initial_state: StateId,
        final_states: Vec<bool>,
        transitions: Vec<StateTransitions>,
        eos_token_id: TokenId,
        vocab_size: usize,
    ) -> (r: Option<Self>)
        requires
            forall|k: int| 0 <= k < transitions@.len() ==> (#[trigger] transitions@[k]).wf(),
        ensures
            r is Some == (final_states@.len() == transitions@.len() <= STATE_LIMIT),
            r matches Some(index) ==> {
                &&& index.wf()
                &&& index.initial() == initial_state
                &&& index.finals() == final_states@
                &&& index.rows() == Seq::new(transitions@.len(), |k: int| transitions@[k]@)
                &&& index.eos() == eos_token_id
                &&& index.size() == vocab_size
            },
    {
        if final_states.len() == transitions.len() && transitions.len() <= STATE_LIMIT as usize {
            Some(Index { initial_state, final_states, transitions, eos_token_id, vocab_size })
        } else {
            None
        }
    }

    /// Returns which states are final, by state id.
    pub fn final_flags(&self) -> (r: &[bool])
        ensures
            r@ == self.finals(),
    {
        self.final_states.as_slice()
    }

    /// Returns the token that ends a sequence.
    pub fn eos_token_id(&self) -> (r: TokenId)
        ensures
            r == self.eos(),
    {
        self.eos_token_id
    }

    /// Returns the ID of the initial state in the automaton.
    pub fn initial_state(&self) -> (r: StateId)
        ensures
            r == self.initial(),
    {
        self.initial_state
    }

    /// Returns all final states, in ascending order.
    pub fn final_states(&self) -> (r: Vec<StateId>)
        requires
            self.wf(),
        ensures
            r@ == places(self.finals(), self.finals().len()),
            forall|state: StateId|
                #[trigger] r@.contains(state) <==> (state < self.finals().len() && self.finals()[state as int]),
            forall|i: int, j: int| 0 <= i < j < r@.len() ==> #[trigger] r@[i] < #[trigger] r@[j],
    {
        let mut r: Vec<StateId> = Vec::new();
        let mut i: usize = 0;
        while i < self.final_states.len()
            invariant
                self.wf(),
                i <= self.final_states@.len(),
                r@ == places(self.final_states@, i as nat),
            decreases self.final_states@.len() - i,
        {
            if self.final_states[i] {
                r.push(i as StateId);
            }
            i += 1;
        }
        proof {
            let n = self.final_states@.len();
            assert forall|state: StateId|
                #[trigger] r@.contains(state) <==> (state < self.finals().len() && self.finals()[state as int]) by {
                law_places_list_flags(self.finals(), n, state);
            }
            assert forall|a: int, b: int| 0 <= a < b < r@.len() implies #[trigger] r@[a] < #[trigger] r@[b] by {
                law_places_ascend(self.finals(), n, a, b);
            }
        }
        r
    }

    /// Returns the transition tables, by state id.
    pub fn transitions(&self) -> (r: &[StateTransitions])
        requires
            self.wf(),
        ensures
            r@.len() == self.rows().len(),
            forall|k: int| 0 <= k < r@.len() ==> (#[trigger] r@[k]).wf() && r@[k]@ == self.rows()[k],
    {
        self.transitions.as_slice()
    }

    /// Checks if state is in final states set or not.
    pub fn is_final_state(&self, state: StateId) -> (r: bool)
        ensures
            r == (state < self.finals().len() && self.finals()[state as int]),
    {
        (state as usize) < self.final_states.len() && self.final_states[state as usize]
    }

    /// Lists allowed tokens for a given state ID or `None` if it is not found in `Index`.
    pub fn allowed_tokens(&self, state: &StateId) -> (r: Option<Vec<TokenId>>)
        ensures
            r is Some == (*state < self.rows().len()),
            r matches Some(tokens) ==> tokens@ == row_tokens(self.rows()[*state as int]),
            r matches Some(tokens) ==> tokens@.len() == self.rows()[*state as int].len(),
            r matches Some(tokens) ==> forall|i: int|
                0 <= i < tokens@.len() ==> #[trigger] tokens@[i] == self.rows()[*state as int][i].0,
    {
        let mut it: Tokens = match self.allowed_tokens_iter(state) {
            Some(it) => it,
            None => {
                return None;
            },
        };
        let ghost all = it.remaining();
        let mut tokens: Vec<TokenId> = Vec::new();
        assert(all =~= tokens@ + it.remaining());
        loop
            invariant
                tokens@ + it.remaining() == all,
            ensures
                it.remaining().len() == 0,
            decreases it.remaining().len(),
        {
            let ghost left = it.remaining();
            match it.next() {
                Some(token) => {
                    tokens.push(token);
                    assert(tokens@ + it.remaining() =~= tokens@.drop_last() + left);
                },
                None => {
                    break ;
                },
            }
        }
        assert(tokens@ =~= all);
        Some(tokens)
    }

    /// Iterates over the allowed tokens for a given state ID, or `None` if it is not found in
    /// `Index`.
    pub fn allowed_tokens_iter(&self, state: &StateId) -> (r: Option<Tokens<'_>>)
        ensures
            r is Some == (*state < self.rows().len()),
            r matches Some(tokens) ==> tokens.remaining() == row_tokens(self.rows()[*state as int]),
            r matches Some(tokens) ==> tokens.remaining().len() == self.rows()[*state as int].len(),
            r matches Some(tokens) ==> forall|i: int|
                0 <= i < tokens.remaining().len() ==> #[trigger] tokens.remaining()[i] == self.rows()[*state as int][i].0,
    {
        if (*state as usize) < self.transitions.len() {
            Some(self.transitions[*state as usize].tokens())
        } else {
            None
        }
    }

    /// Returns transition state for a given state and token id or `None` otherwise.
    pub fn next_state(&self, state: &StateId, token_id: &TokenId) -> (r: Option<StateId>)
        requires
            self.wf(),
        ensures
            r == row_next(self.rows(), self.eos(), *state, *token_id),
    {
        if *token_id == self.eos_token_id {
            return None;
        }
        if (*state as usize) < self.transitions.len() {
            self.transitions[*state as usize].get(*token_id)
        } else {
            None
        }
    }

    /// Returns the size of the vocabulary used to build the index.
    pub fn vocab_size(&self) -> (r: usize)
        ensures
            r == self.size(),
    {
        self.vocab_size
    }

    /// Returns the text form: a heading, and for each state with transitions a line with the state
    /// and its pairs of a token and a state.
    pub fn to_string(&self) -> (r: String)
        ensures
            r@ == index_text(self.rows()),
    {
        text_of(self.transitions.as_slice())
    }
}

} // verus!
