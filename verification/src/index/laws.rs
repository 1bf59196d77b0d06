//! What holds of every index.
use vstd::prelude::*;

use crate::automaton::{law_walk_concat, Dfa, STATE_LIMIT};
use crate::index::reach::{hits, index_row, index_states, lemma_found_in_turn, lemma_found_once, lemma_hit_order, lemma_hits, lemma_state_found, lemma_states_closed, listed_before, numbered, reads};
use crate::index::walk::row_leads;
use crate::index::{law_row_tokens, lemma_row, row_next, row_tokens, Index};
use crate::primitives::{StateId, TokenId};
use crate::state_transitions::{law_insert_then_get, row_contains, row_distinct, row_lookup, row_position, Row};
use crate::vocabulary::flat::{contents, law_located_has_path, law_path_leads_back, locate, path_at, spelling};
use crate::vocabulary::trie::flat_trie;
use crate::vocabulary::words::{last_number, lemma_last_number, spelled};
use crate::vocabulary::Vocabulary;

verus! {

/// `index` is the index of the automaton `dfa` for the tokens of `vocabulary`.
pub open spec fn is_index_of(index: Index, dfa: Dfa, vocabulary: Vocabulary) -> bool {
    &&& vocabulary.wf()
    &&& index.describes(dfa, vocabulary.words(), vocabulary.eos())
}

/// The states of the automaton that stand behind the states of its index.
pub open spec fn automaton_states(dfa: Dfa, vocabulary: Vocabulary) -> Seq<u32> {
    index_states(dfa, flat_trie(vocabulary.words()))
}

/// Token `token` has bytes, and no later token has the same.
pub open spec fn usable(words: Seq<Seq<u8>>, token: TokenId) -> bool {
    &&& token < words.len()
    &&& words[token as int].len() > 0
    &&& last_number(words, words[token as int]) == Some(token)
}

/// The transitions of state `k` without that of the end-of-sequence token.
spec fn plain_row(dfa: Dfa, vocabulary: Vocabulary, k: int) -> Row {
    let nodes = flat_trie(vocabulary.words());
    numbered(nodes, index_states(dfa, nodes), hits(dfa, nodes, index_states(dfa, nodes)[k]))
}

/// The entries of a row lead to states of the index, and have different tokens.
proof fn lemma_plain_row(index: Index, dfa: Dfa, vocabulary: Vocabulary, k: int)
    requires
        is_index_of(index, dfa, vocabulary),
        0 <= k < index.rows().len(),
    ensures
        ({
            let nodes = flat_trie(vocabulary.words());
            let states = automaton_states(dfa, vocabulary);
            &&& states.no_duplicates()
            &&& states.len() == index.rows().len() <= u32::MAX
            &&& row_leads(plain_row(dfa, vocabulary, k), nodes, states, hits(dfa, nodes, states[k]))
            &&& row_distinct(plain_row(dfa, vocabulary, k))
        }),
{
    let nodes = flat_trie(vocabulary.words());
    let states = automaton_states(dfa, vocabulary);
    let row = plain_row(dfa, vocabulary, k);
    let reached = hits(dfa, nodes, states[k]);
    index.lemma_in_order();
    lemma_found_once(dfa, nodes, STATE_LIMIT as nat);
    lemma_states_closed(dfa, nodes, k);
    assert forall|j: int| 0 <= j < row.len() implies {
        &&& (#[trigger] row[j]).0 == nodes[reached[j].0].token()->0
        &&& row[j].1 < states.len()
        &&& states[row[j].1 as int] == reached[j].1
    } by {
        assert(states.contains(reached[j].1));
    }
    lemma_row(dfa, nodes, vocabulary.words(), states, states[k], row);
}

/// A token can be read from a state exactly if a node of the trie says so.
proof fn lemma_entry(index: Index, dfa: Dfa, vocabulary: Vocabulary, k: int, token: TokenId)
    requires
        is_index_of(index, dfa, vocabulary),
        0 <= k < index.rows().len(),
    ensures
        ({
            let words = vocabulary.words();
            let states = automaton_states(dfa, vocabulary);
            match row_lookup(plain_row(dfa, vocabulary, k), token) {
                Some(next) => {
                    &&& usable(words, token)
                    &&& next < states.len()
                    &&& dfa.walk(states[k], words[token as int]) == Some(states[next as int])
                },
                None => !usable(words, token) || dfa.walk(states[k], words[token as int]) is None,
            }
        }),
{
    let words = vocabulary.words();
    let nodes = flat_trie(words);
    let n = nodes.len() as int;
    let states = automaton_states(dfa, vocabulary);
    let row = plain_row(dfa, vocabulary, k);
    let reached = hits(dfa, nodes, states[k]);
    lemma_plain_row(index, dfa, vocabulary, k);
    lemma_hits(dfa, nodes, 1, n, 1, states[k]);
    if row_contains(row, token) {
        let j = row_position(row, token);
        let hit = reached[j];
        assert(reached.contains(hit));
        assert(reads(dfa, nodes, 1, n, states[k], hit));
        let path = path_at(nodes, hit.0);
        law_path_leads_back(nodes, hit.0);
        crate::vocabulary::flat::lemma_spelling_found(nodes, 1, n, 1, hit.0, Seq::empty());
        assert(contents(nodes).contains_key(path) && contents(nodes)[path] == Some(token));
        assert(last_number(words, path) == Some(token));
        lemma_last_number(words, path);
    } else if usable(words, token) && dfa.walk(states[k], words[token as int]) is Some {
        let path = words[token as int];
        lemma_last_number(words, path);
        crate::vocabulary::words::law_words_are_tokens(words, path);
        assert(contents(nodes).contains_key(path));
        assert(contents(nodes)[path] == Some(token));
        law_located_has_path(nodes, path);
        let t = locate(nodes, path)->0;
        assert(t > 0);
        let hit = (t, dfa.walk(states[k], path)->0);
        assert(reads(dfa, nodes, 1, n, states[k], hit));
        let j = choose|j: int| 0 <= j < reached.len() && reached[j] == hit;
        assert(row[j].0 == token);
    }
}

/// A token is allowed in a state exactly if its bytes can be read there, and leads to the state
/// behind its bytes. Where several tokens have the same bytes, only the last one counts.
pub proof fn law_allowed_iff_read(index: Index, dfa: Dfa, vocabulary: Vocabulary, state: StateId, token: TokenId)
    requires
        is_index_of(index, dfa, vocabulary),
        state < index.rows().len(),
        token != vocabulary.eos(),
    ensures
        ({
            let words = vocabulary.words();
            let states = automaton_states(dfa, vocabulary);
            &&& row_contains(index.rows()[state as int], token) <==> usable(words, token) && dfa.walk(
                states[state as int],
                words[token as int],
            ) is Some
            &&& match row_next(index.rows(), index.eos(), state, token) {
                Some(next) => {
                    &&& usable(words, token)
                    &&& next < index.rows().len()
                    &&& dfa.walk(states[state as int], words[token as int]) == Some(states[next as int])
                },
                None => !usable(words, token) || dfa.walk(states[state as int], words[token as int]) is None,
            }
        }),
{
    let k = state as int;
    let row = plain_row(dfa, vocabulary, k);
    lemma_plain_row(index, dfa, vocabulary, k);
    lemma_entry(index, dfa, vocabulary, k, token);
    law_insert_then_get(row, vocabulary.eos(), state, token);
    assert(index.rows()[k] == index_row(dfa, flat_trie(vocabulary.words()), vocabulary.eos(), k));
}

/// The end-of-sequence token is allowed exactly in the final states. Its transition stays in the
/// state, but it leads to no next state. A state is final exactly if the input may end in the state
/// of the automaton behind it.
pub proof fn law_eos_in_final_states(index: Index, dfa: Dfa, vocabulary: Vocabulary, state: StateId)
    requires
        is_index_of(index, dfa, vocabulary),
        state < index.rows().len(),
    ensures
        index.finals().len() == index.rows().len(),
        index.finals()[state as int] == dfa.accepts(automaton_states(dfa, vocabulary)[state as int]),
        row_lookup(index.rows()[state as int], vocabulary.eos()) == if index.finals()[state as int] {
            Some(state)
        } else {
            None
        },
        row_next(index.rows(), index.eos(), state, vocabulary.eos()) is None,
{
    let k = state as int;
    let row = plain_row(dfa, vocabulary, k);
    lemma_plain_row(index, dfa, vocabulary, k);
    lemma_entry(index, dfa, vocabulary, k, vocabulary.eos());
    law_insert_then_get(row, vocabulary.eos(), state, vocabulary.eos());
    assert(index.rows()[k] == index_row(dfa, flat_trie(vocabulary.words()), vocabulary.eos(), k));
}

/// Processing begins in the state behind which the start state of the automaton stands, and
/// different states have different states of the automaton behind them.
pub proof fn law_initial_is_start(index: Index, dfa: Dfa, vocabulary: Vocabulary)
    requires
        is_index_of(index, dfa, vocabulary),
        dfa.start is Some,
    ensures
        index.initial() < index.rows().len(),
        automaton_states(dfa, vocabulary).len() == index.rows().len(),
        automaton_states(dfa, vocabulary)[index.initial() as int] == dfa.start->0,
        automaton_states(dfa, vocabulary).no_duplicates(),
{
    lemma_found_once(dfa, flat_trie(vocabulary.words()), STATE_LIMIT as nat);
}

/// Of every index it is known which states are final, there are not more states than ids, and no
/// token occurs twice among the transitions of a state.
pub proof fn law_index_in_order(index: Index)
    requires
        index.wf(),
    ensures
        index.finals().len() == index.rows().len() <= STATE_LIMIT,
        forall|k: int| 0 <= k < index.rows().len() ==> row_distinct(#[trigger] index.rows()[k]),
{
    index.lemma_in_order();
}

/// The transitions of every state have different tokens, and lead to states of the index.
pub proof fn law_rows_closed(index: Index, dfa: Dfa, vocabulary: Vocabulary, state: StateId)
    requires
        is_index_of(index, dfa, vocabulary),
        state < index.rows().len(),
    ensures
        row_distinct(index.rows()[state as int]),
        forall|j: int|
            0 <= j < index.rows()[state as int].len() ==> (#[trigger] index.rows()[state as int][j]).1
                < index.rows().len(),
{
    let k = state as int;
    let row = plain_row(dfa, vocabulary, k);
    let full = index.rows()[k];
    index.lemma_in_order();
    lemma_plain_row(index, dfa, vocabulary, k);
    assert(full == index_row(dfa, flat_trie(vocabulary.words()), vocabulary.eos(), k));
    assert forall|j: int| 0 <= j < full.len() implies (#[trigger] full[j]).1 < index.rows().len() by {
        assert(full[j] == (vocabulary.eos(), state) || full[j] == row[j]);
    }
}

/// Every state but the initial one is the next state of an earlier one.
pub proof fn law_states_reachable(index: Index, dfa: Dfa, vocabulary: Vocabulary, state: StateId) -> (from: (
    StateId,
    TokenId,
))
    requires
        is_index_of(index, dfa, vocabulary),
        0 < state < index.rows().len(),
    ensures
        from.0 < state,
        row_next(index.rows(), index.eos(), from.0, from.1) == Some(state),
{
    let words = vocabulary.words();
    let nodes = flat_trie(words);
    let states = automaton_states(dfa, vocabulary);
    index.lemma_in_order();
    let (m, j) = lemma_state_found(dfa, nodes, STATE_LIMIT as nat, state as int);
    let row = plain_row(dfa, vocabulary, m);
    let reached = hits(dfa, nodes, states[m]);
    lemma_plain_row(index, dfa, vocabulary, m);
    let token = row[j].0;
    assert(row_contains(row, token));
    assert(row_position(row, token) == j);
    assert(row[j].1 == state);
    lemma_entry(index, dfa, vocabulary, m, token);
    law_insert_then_get(row, vocabulary.eos(), m as StateId, token);
    assert(index.rows()[m] == index_row(dfa, nodes, vocabulary.eos(), m));
    (m as StateId, token)
}

/// The state behind `tokens`, if each of them leads on.
pub open spec fn run(rows: Seq<Row>, eos: TokenId, state: StateId, tokens: Seq<TokenId>) -> Option<StateId>
    decreases tokens.len(),
{
    if tokens.len() == 0 {
        Some(state)
    } else {
        match row_next(rows, eos, state, tokens[0]) {
            Some(next) => run(rows, eos, next, tokens.skip(1)),
            None => None,
        }
    }
}

/// To follow tokens in the index is to walk along their bytes in the automaton: tokens that count
/// lead on exactly if their bytes do, and to the state behind them, however the bytes are cut into
/// tokens.
pub proof fn law_tokens_follow_bytes(
    index: Index,
    dfa: Dfa,
    vocabulary: Vocabulary,
    state: StateId,
    tokens: Seq<TokenId>,
)
    requires
        is_index_of(index, dfa, vocabulary),
        state < index.rows().len(),
        forall|i: int| 0 <= i < tokens.len() ==> usable(vocabulary.words(), #[trigger] tokens[i]),
    ensures
        ({
            let states = automaton_states(dfa, vocabulary);
            match run(index.rows(), index.eos(), state, tokens) {
                Some(last) => {
                    &&& last < index.rows().len()
                    &&& dfa.walk(states[state as int], spelled(vocabulary.words(), tokens)) == Some(states[last as int])
                },
                None => dfa.walk(states[state as int], spelled(vocabulary.words(), tokens)) is None,
            }
        }),
    decreases tokens.len(),
{
    let words = vocabulary.words();
    let states = automaton_states(dfa, vocabulary);
    if tokens.len() > 0 {
        assert(usable(words, tokens[0]));
        law_allowed_iff_read(index, dfa, vocabulary, state, tokens[0]);
        law_walk_concat(dfa, states[state as int], words[tokens[0] as int], spelled(words, tokens.skip(1)));
        if let Some(next) = row_next(index.rows(), index.eos(), state, tokens[0]) {
            assert forall|i: int| 0 <= i < tokens.skip(1).len() implies usable(words, #[trigger] tokens.skip(1)[i]) by {
                assert(tokens.skip(1)[i] == tokens[i + 1]);
            }
            law_tokens_follow_bytes(index, dfa, vocabulary, next, tokens.skip(1));
        }
    }
}

/// Tokens lead from the initial state to a final state exactly if the automaton can read their
/// bytes from its start state and the input may end there.
pub proof fn law_accepts_tokens(index: Index, dfa: Dfa, vocabulary: Vocabulary, tokens: Seq<TokenId>)
    requires
        is_index_of(index, dfa, vocabulary),
        dfa.start is Some,
        forall|i: int| 0 <= i < tokens.len() ==> usable(vocabulary.words(), #[trigger] tokens[i]),
    ensures
        (run(index.rows(), index.eos(), index.initial(), tokens) matches Some(last) && index.finals()[last as int])
            <==> (dfa.walk(dfa.start->0, spelled(vocabulary.words(), tokens)) matches Some(state) && dfa.accepts(state)),
{
    law_initial_is_start(index, dfa, vocabulary);
    law_tokens_follow_bytes(index, dfa, vocabulary, index.initial(), tokens);
    if let Some(last) = run(index.rows(), index.eos(), index.initial(), tokens) {
        law_eos_in_final_states(index, dfa, vocabulary, last);
    }
}

/// A token counts exactly if it has bytes and no later token has the same.
pub proof fn law_usable_tokens(words: Seq<Seq<u8>>, token: TokenId)
    requires
        words.len() <= u32::MAX,
    ensures
        usable(words, token) <==> {
            &&& token < words.len()
            &&& words[token as int].len() > 0
            &&& forall|j: int| token < j < words.len() ==> #[trigger] words[j] != words[token as int]
        },
{
    if token < words.len() {
        let word = words[token as int];
        lemma_last_number(words, word);
        assert(words.contains(word));
        let last = last_number(words, word)->0;
        if last < token {
            assert(words[token as int] == word);
        }
    }
}

/// An index begins in state 0, knows the end-of-sequence token of its vocabulary, and its vocabulary
/// size is one more than the greatest token id.
pub proof fn law_index_of_vocabulary(index: Index, dfa: Dfa, vocabulary: Vocabulary)
    requires
        is_index_of(index, dfa, vocabulary),
    ensures
        index.initial() == 0,
        index.eos() == vocabulary.eos(),
        index.size() >= vocabulary.words().len(),
        index.size() > vocabulary.eos(),
        index.size() == vocabulary.words().len() || index.size() == vocabulary.eos() + 1,
{
}

/// What is allowed in a state is each of these tokens once, and no other: those with bytes that no
/// later token has and that the automaton reads from the state behind it, and the one that ends a
/// sequence where the end of the input leads the automaton to a match state.
pub proof fn law_allowed_tokens(index: Index, dfa: Dfa, vocabulary: Vocabulary, state: StateId, token: TokenId)
    requires
        is_index_of(index, dfa, vocabulary),
        state < index.rows().len(),
    ensures
        row_tokens(index.rows()[state as int]).no_duplicates(),
        row_tokens(index.rows()[state as int]).contains(token) <==> {
            let words = vocabulary.words();
            let behind = automaton_states(dfa, vocabulary)[state as int];
            ||| token == vocabulary.eos() && (dfa.matching)((dfa.at_end)(behind))
            ||| {
                &&& token < words.len()
                &&& words[token as int].len() > 0
                &&& forall|j: int| token < j < words.len() ==> #[trigger] words[j] != words[token as int]
                &&& dfa.walk(behind, words[token as int]) is Some
            }
        },
{
    let row = index.rows()[state as int];
    law_row_tokens(row, token);
    law_rows_closed(index, dfa, vocabulary, state);
    law_usable_tokens(vocabulary.words(), token);
    if token == vocabulary.eos() {
        law_eos_in_final_states(index, dfa, vocabulary, state);
    } else {
        law_allowed_iff_read(index, dfa, vocabulary, state, token);
    }
}

/// The token of an entry of a row without the end-of-sequence token has the bytes that lead to the
/// node of the entry, and is not the end-of-sequence token.
proof fn lemma_entry_word(index: Index, dfa: Dfa, vocabulary: Vocabulary, k: int, j: int)
    requires
        is_index_of(index, dfa, vocabulary),
        0 <= k < index.rows().len(),
        0 <= j < plain_row(dfa, vocabulary, k).len(),
    ensures
        ({
            let nodes = flat_trie(vocabulary.words());
            let reached = hits(dfa, nodes, automaton_states(dfa, vocabulary)[k]);
            let token = plain_row(dfa, vocabulary, k)[j].0;
            &&& token < vocabulary.words().len()
            &&& token != vocabulary.eos()
            &&& vocabulary.words()[token as int] == spelling(nodes, 1, nodes.len() as int, reached[j].0)
            &&& vocabulary.words()[token as int].len() > 0
        }),
{
    let words = vocabulary.words();
    let nodes = flat_trie(words);
    let n = nodes.len() as int;
    let states = automaton_states(dfa, vocabulary);
    let row = plain_row(dfa, vocabulary, k);
    let reached = hits(dfa, nodes, states[k]);
    lemma_plain_row(index, dfa, vocabulary, k);
    lemma_hits(dfa, nodes, 1, n, 1, states[k]);
    let hit = reached[j];
    assert(reached.contains(hit));
    assert(reads(dfa, nodes, 1, n, states[k], hit));
    let path = path_at(nodes, hit.0);
    law_path_leads_back(nodes, hit.0);
    crate::vocabulary::flat::lemma_spelling_found(nodes, 1, n, 1, hit.0, Seq::empty());
    assert(row[j].0 == nodes[hit.0].token()->0);
    assert(contents(nodes).contains_key(path) && contents(nodes)[path] == Some(row[j].0));
    assert(last_number(words, path) == Some(row[j].0));
    lemma_last_number(words, path);
}

/// The transitions of a state are those of its row without the end-of-sequence token, followed by
/// that of the end-of-sequence token in a final state.
proof fn lemma_full_row(index: Index, dfa: Dfa, vocabulary: Vocabulary, k: int)
    requires
        is_index_of(index, dfa, vocabulary),
        0 <= k < index.rows().len(),
    ensures
        ({
            let row = plain_row(dfa, vocabulary, k);
            index.rows()[k] == if index.finals()[k] {
                row.push((vocabulary.eos(), k as StateId))
            } else {
                row
            }
        }),
{
    let row = plain_row(dfa, vocabulary, k);
    lemma_plain_row(index, dfa, vocabulary, k);
    assert(index.rows()[k] == index_row(dfa, flat_trie(vocabulary.words()), vocabulary.eos(), k));
    if row_contains(row, vocabulary.eos()) {
        lemma_entry_word(index, dfa, vocabulary, k, row_position(row, vocabulary.eos()));
    }
}

/// The order of the allowed tokens: the one that ends a sequence is the last. Of two others that
/// differ in the last byte alone, the smaller byte comes first. Otherwise that one comes first whose
/// bytes before the last are a front of the other's, or have the greater byte where the two first
/// differ.
pub proof fn law_allowed_order(index: Index, dfa: Dfa, vocabulary: Vocabulary, state: StateId, i: int, j: int)
    requires
        is_index_of(index, dfa, vocabulary),
        state < index.rows().len(),
        0 <= i < j < index.rows()[state as int].len(),
    ensures
        ({
            let first = index.rows()[state as int][i].0;
            let second = index.rows()[state as int][j].0;
            let a = vocabulary.words()[first as int];
            let b = vocabulary.words()[second as int];
            let x = a.drop_last();
            let y = b.drop_last();
            &&& first != vocabulary.eos()
            &&& second != vocabulary.eos() ==> {
                ||| x == y && a.last() < b.last()
                ||| exists|n: int|
                    0 <= n <= x.len() && n < y.len() && #[trigger] x.take(n) == y.take(n) && (n == x.len() || x[n]
                        > y[n])
            }
        }),
{
    let k = state as int;
    let words = vocabulary.words();
    let nodes = flat_trie(words);
    let n = nodes.len() as int;
    let states = automaton_states(dfa, vocabulary);
    let row = plain_row(dfa, vocabulary, k);
    lemma_plain_row(index, dfa, vocabulary, k);
    lemma_full_row(index, dfa, vocabulary, k);
    lemma_entry_word(index, dfa, vocabulary, k, i);
    if j < row.len() {
        lemma_entry_word(index, dfa, vocabulary, k, j);
        lemma_hit_order(dfa, nodes, 1, n, 1, states[k], i, j);
        let a = words[row[i].0 as int];
        let b = words[row[j].0 as int];
        assert(listed_before(a, b));
    }
}

/// States are numbered as the allowed tokens of the states, one state after the other, first lead to
/// them: where a token leads to a state, one before it leads to each state with a smaller number but
/// the initial one.
pub proof fn law_states_numbered_in_turn(
    index: Index,
    dfa: Dfa,
    vocabulary: Vocabulary,
    state: StateId,
    j: int,
    earlier: StateId,
) -> (place: (int, int))
    requires
        is_index_of(index, dfa, vocabulary),
        state < index.rows().len(),
        0 <= j < index.rows()[state as int].len(),
        index.rows()[state as int][j].0 != vocabulary.eos(),
        0 < earlier < index.rows()[state as int][j].1,
    ensures
        0 <= place.0 < index.rows().len(),
        0 <= place.1 < index.rows()[place.0].len(),
        index.rows()[place.0][place.1].0 != vocabulary.eos(),
        index.rows()[place.0][place.1].1 == earlier,
        place.0 < state || (place.0 == state && place.1 < j),
{
    let nodes = flat_trie(vocabulary.words());
    let states = automaton_states(dfa, vocabulary);
    let row = plain_row(dfa, vocabulary, state as int);
    let target = index.rows()[state as int][j].1 as int;
    index.lemma_in_order();
    law_rows_closed(index, dfa, vocabulary, state);
    lemma_plain_row(index, dfa, vocabulary, state as int);
    lemma_full_row(index, dfa, vocabulary, state as int);
    assert(j < row.len() && row[j].1 == target);
    let place = lemma_found_in_turn(dfa, nodes, state as int, j, earlier as int, target);
    let other = plain_row(dfa, vocabulary, place.0);
    lemma_plain_row(index, dfa, vocabulary, place.0);
    lemma_full_row(index, dfa, vocabulary, place.0);
    lemma_entry_word(index, dfa, vocabulary, place.0, place.1);
    assert(states[other[place.1].1 as int] == states[earlier as int]);
    place
}

} // verus!
