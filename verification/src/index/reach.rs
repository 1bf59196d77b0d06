//! Which tokens can be read from which states.
use vstd::prelude::*;

use crate::automaton::{Dfa, STATE_LIMIT};
use crate::primitives::{StateId, TokenId};
use crate::state_transitions::{row_upsert, Row};
use crate::vocabulary::flat::{forest, lemma_first_byte, lemma_spelling_found, spelling};
use crate::vocabulary::node::TrieNode;

verus! {

/// A token that can be read: the node of the trie in which it ends, and the state of the automaton
/// behind it.
pub type Hit = (int, u32);

/// The tokens of one byte that end in one of the sibling nodes from `p` to `end`, in the order of
/// the nodes.
pub open spec fn level(dfa: Dfa, nodes: Seq<TrieNode>, p: int, end: int, state: u32) -> Seq<Hit>
    decreases end - p,
{
    let q = p + nodes[p].size();
    if 0 <= p < q <= end {
        let here = match dfa.step(state, nodes[p].label()) {
            Some(next) => if nodes[p].token() is Some {
                seq![(p, next)]
            } else {
                Seq::empty()
            },
            None => Seq::empty(),
        };
        here + level(dfa, nodes, q, end, state)
    } else {
        Seq::empty()
    }
}

/// The longer tokens that end below one of the sibling nodes from `p` to `end`. Those below the
/// last sibling come first; below each sibling the tokens of its children come before longer ones.
pub open spec fn below(dfa: Dfa, nodes: Seq<TrieNode>, p: int, end: int, state: u32) -> Seq<Hit>
    decreases end - p,
{
    let q = p + nodes[p].size();
    if 0 <= p < q <= end {
        let here = match dfa.step(state, nodes[p].label()) {
            Some(next) => level(dfa, nodes, p + 1, q, next) + below(dfa, nodes, p + 1, q, next),
            None => Seq::empty(),
        };
        below(dfa, nodes, q, end, state) + here
    } else {
        Seq::empty()
    }
}

/// The tokens that can be read from `state` on nodes from `p` to `end`.
pub open spec fn hits_between(dfa: Dfa, nodes: Seq<TrieNode>, p: int, end: int, state: u32) -> Seq<Hit> {
    level(dfa, nodes, p, end, state) + below(dfa, nodes, p, end, state)
}

/// The tokens of the trie `nodes` that can be read from `state`.
pub open spec fn hits(dfa: Dfa, nodes: Seq<TrieNode>, state: u32) -> Seq<Hit> {
    hits_between(dfa, nodes, 1, nodes.len() as int, state)
}

/// `found` and the state `state`, appended unless it is there already.
pub open spec fn with_state(found: Seq<u32>, state: u32) -> Seq<u32> {
    if found.contains(state) {
        found
    } else {
        found.push(state)
    }
}

/// `found` and the states behind the tokens `reached`, in the order of the tokens.
pub open spec fn with_targets(found: Seq<u32>, reached: Seq<Hit>) -> Seq<u32>
    decreases reached.len(),
{
    if reached.len() == 0 {
        found
    } else {
        with_state(with_targets(found, reached.drop_last()), reached.last().1)
    }
}

/// The states that are known after the tokens that can be read from the first `k` ones were looked
/// at. At first only the start state is known.
pub open spec fn found_after(dfa: Dfa, nodes: Seq<TrieNode>, k: nat) -> Seq<u32>
    decreases k,
{
    if k == 0 {
        seq![dfa.start->0]
    } else {
        let found = found_after(dfa, nodes, (k - 1) as nat);
        if k - 1 < found.len() {
            with_targets(found, hits(dfa, nodes, found[k - 1]))
        } else {
            found
        }
    }
}

/// The states of the automaton that the start state leads to by tokens, in the order in which they
/// are found. Their places are the state ids of the index.
pub open spec fn index_states(dfa: Dfa, nodes: Seq<TrieNode>) -> Seq<u32> {
    found_after(dfa, nodes, STATE_LIMIT as nat)
}

/// The entries for the tokens `reached`, where the states have their places in `states` as ids.
pub open spec fn numbered(nodes: Seq<TrieNode>, states: Seq<u32>, reached: Seq<Hit>) -> Row {
    Seq::new(
        reached.len(),
        |j: int| (nodes[reached[j].0].token()->0, states.index_of(reached[j].1) as StateId),
    )
}

/// The transitions that leave state `k` of the index: the tokens that can be read, and the
/// end-of-sequence token, which stays in the state, where the input may end.
pub open spec fn index_row(dfa: Dfa, nodes: Seq<TrieNode>, eos: TokenId, k: int) -> Row {
    let states = index_states(dfa, nodes);
    let row = numbered(nodes, states, hits(dfa, nodes, states[k]));
    if dfa.accepts(states[k]) {
        row_upsert(row, eos, k as StateId)
    } else {
        row
    }
}

/// The transitions of all states of the index.
pub open spec fn index_rows(dfa: Dfa, nodes: Seq<TrieNode>, eos: TokenId) -> Seq<Row> {
    Seq::new(index_states(dfa, nodes).len(), |k: int| index_row(dfa, nodes, eos, k))
}

/// Which states of the index are final.
pub open spec fn index_finals(dfa: Dfa, nodes: Seq<TrieNode>) -> Seq<bool> {
    Seq::new(index_states(dfa, nodes).len(), |k: int| dfa.accepts(index_states(dfa, nodes)[k]))
}

/// `hit` is a node from `p` to `end` that ends a token, and the state that its bytes lead to.
pub open spec fn reads(dfa: Dfa, nodes: Seq<TrieNode>, p: int, end: int, state: u32, hit: Hit) -> bool {
    &&& p <= hit.0 < end
    &&& nodes[hit.0].token() is Some
    &&& dfa.walk(state, spelling(nodes, p, end, hit.0)) == Some(hit.1)
}

/// No node occurs twice.
pub open spec fn apart(reached: Seq<Hit>) -> bool {
    forall|i: int, j: int| 0 <= i < j < reached.len() ==> (#[trigger] reached[i]).0 != (#[trigger] reached[j]).0
}

/// What is in a concatenation is in one of its parts.
proof fn lemma_concat_contains(a: Seq<Hit>, b: Seq<Hit>, x: Hit)
    ensures
        (a + b).contains(x) == (a.contains(x) || b.contains(x)),
{
    if a.contains(x) {
        let i = choose|i: int| 0 <= i < a.len() && a[i] == x;
        assert((a + b)[i] == x);
    }
    if b.contains(x) {
        let i = choose|i: int| 0 <= i < b.len() && b[i] == x;
        assert((a + b)[a.len() + i] == x);
    }
    if (a + b).contains(x) {
        let i = choose|i: int| 0 <= i < (a + b).len() && (a + b)[i] == x;
        if i < a.len() {
            assert(a[i] == x);
        } else {
            assert(b[i - a.len()] == x);
        }
    }
}

/// To walk along a byte and more bytes is to take a step and walk along the rest.
proof fn lemma_walk_step(dfa: Dfa, state: u32, byte: u8, rest: Seq<u8>)
    ensures
        dfa.walk(state, seq![byte] + rest) == match dfa.step(state, byte) {
            Some(next) => dfa.walk(next, rest),
            None => None,
        },
{
    assert((seq![byte] + rest).skip(1) =~= rest);
}

/// To walk along one byte is to take a step.
proof fn lemma_walk_byte(dfa: Dfa, state: u32, byte: u8)
    ensures
        dfa.walk(state, seq![byte]) == dfa.step(state, byte),
{
    lemma_walk_step(dfa, state, byte, Seq::empty());
    assert(seq![byte] + Seq::<u8>::empty() =~= seq![byte]);
}

/// The tokens of a level are tokens of one byte that can be read, each once.
proof fn lemma_level(dfa: Dfa, nodes: Seq<TrieNode>, p: int, end: int, ups: nat, state: u32)
    requires
        forest(nodes, p, end, ups),
    ensures
        forall|i: int|
            0 <= i < level(dfa, nodes, p, end, state).len() ==> {
                let hit = #[trigger] level(dfa, nodes, p, end, state)[i];
                &&& reads(dfa, nodes, p, end, state, hit)
                &&& spelling(nodes, p, end, hit.0).len() == 1
            },
        apart(level(dfa, nodes, p, end, state)),
    decreases end - p,
{
    if p < end {
        let q = p + nodes[p].size();
        let rest = level(dfa, nodes, q, end, state);
        let all = level(dfa, nodes, p, end, state);
        lemma_level(dfa, nodes, q, end, ups, state);
        lemma_walk_byte(dfa, state, nodes[p].label());
        let skipped = all.len() - rest.len();
        assert forall|i: int| 0 <= i < all.len() implies {
            let hit = #[trigger] all[i];
            &&& reads(dfa, nodes, p, end, state, hit)
            &&& spelling(nodes, p, end, hit.0).len() == 1
        } by {
            if i >= skipped {
                assert(all[i] == rest[i - skipped]);
            }
        }
        assert forall|i: int, j: int| 0 <= i < j < all.len() implies (#[trigger] all[i]).0 != (
        #[trigger] all[j]).0 by {
            assert(all[j] == rest[j - skipped]);
            if i >= skipped {
                assert(all[i] == rest[i - skipped]);
            }
        }
    }
}

/// The tokens below a level are longer tokens that can be read, each once.
proof fn lemma_below(dfa: Dfa, nodes: Seq<TrieNode>, p: int, end: int, ups: nat, state: u32)
    requires
        forest(nodes, p, end, ups),
    ensures
        forall|i: int|
            0 <= i < below(dfa, nodes, p, end, state).len() ==> {
                let hit = #[trigger] below(dfa, nodes, p, end, state)[i];
                &&& reads(dfa, nodes, p, end, state, hit)
                &&& spelling(nodes, p, end, hit.0).len() > 1
            },
        apart(below(dfa, nodes, p, end, state)),
    decreases end - p,
{
    if p < end {
        let q = p + nodes[p].size();
        let behind = below(dfa, nodes, q, end, state);
        let all = below(dfa, nodes, p, end, state);
        lemma_below(dfa, nodes, q, end, ups, state);
        match dfa.step(state, nodes[p].label()) {
            Some(next) => {
                let here = hits_between(dfa, nodes, p + 1, q, next);
                lemma_level(dfa, nodes, p + 1, q, nodes[p].ups() + 1, next);
                lemma_below(dfa, nodes, p + 1, q, nodes[p].ups() + 1, next);
                lemma_hits_apart(dfa, nodes, p + 1, q, nodes[p].ups() + 1, next);
                assert(all == behind + here);
                assert forall|i: int| 0 <= i < here.len() implies reads(dfa, nodes, p + 1, q, next, #[trigger] here[i]) by {
                    let first = level(dfa, nodes, p + 1, q, next);
                    if i < first.len() {
                        assert(here[i] == first[i]);
                    } else {
                        assert(here[i] == below(dfa, nodes, p + 1, q, next)[i - first.len()]);
                    }
                }
                assert forall|i: int| 0 <= i < all.len() implies {
                    let hit = #[trigger] all[i];
                    &&& reads(dfa, nodes, p, end, state, hit)
                    &&& spelling(nodes, p, end, hit.0).len() > 1
                } by {
                    if i < behind.len() {
                        assert(all[i] == behind[i]);
                    } else {
                        let hit = here[i - behind.len()];
                        assert(all[i] == hit);
                        lemma_spelling_found(nodes, p + 1, q, nodes[p].ups() + 1, hit.0, Seq::empty());
                        lemma_walk_step(
                            dfa,
                            state,
                            nodes[p].label(),
                            spelling(nodes, p + 1, q, hit.0),
                        );
                    }
                }
                assert forall|i: int, j: int| 0 <= i < j < all.len() implies (#[trigger] all[i]).0 != (
                #[trigger] all[j]).0 by {
                    if j < behind.len() {
                        assert(all[i] == behind[i] && all[j] == behind[j]);
                    } else {
                        assert(all[j] == here[j - behind.len()]);
                        if i < behind.len() {
                            assert(all[i] == behind[i]);
                        } else {
                            assert(all[i] == here[i - behind.len()]);
                        }
                    }
                }
            },
            None => {
                assert(all =~= behind);
            },
        }
    }
}

/// No node occurs both in a level and below it.
proof fn lemma_hits_apart(dfa: Dfa, nodes: Seq<TrieNode>, p: int, end: int, ups: nat, state: u32)
    requires
        forest(nodes, p, end, ups),
        forall|i: int|
            0 <= i < level(dfa, nodes, p, end, state).len() ==> spelling(
                nodes,
                p,
                end,
                (#[trigger] level(dfa, nodes, p, end, state)[i]).0,
            ).len() == 1,
        forall|i: int|
            0 <= i < below(dfa, nodes, p, end, state).len() ==> spelling(
                nodes,
                p,
                end,
                (#[trigger] below(dfa, nodes, p, end, state)[i]).0,
            ).len() > 1,
        apart(level(dfa, nodes, p, end, state)),
        apart(below(dfa, nodes, p, end, state)),
    ensures
        apart(hits_between(dfa, nodes, p, end, state)),
{
    let first = level(dfa, nodes, p, end, state);
    let second = below(dfa, nodes, p, end, state);
    let all = hits_between(dfa, nodes, p, end, state);
    assert forall|i: int, j: int| 0 <= i < j < all.len() implies (#[trigger] all[i]).0 != (#[trigger] all[j]).0 by {
        if j < first.len() {
            assert(all[i] == first[i] && all[j] == first[j]);
        } else {
            assert(all[j] == second[j - first.len()]);
            if i < first.len() {
                assert(all[i] == first[i]);
            } else {
                assert(all[i] == second[i - first.len()]);
            }
        }
    }
}

/// Every token that can be read is found.
proof fn lemma_hit_found(dfa: Dfa, nodes: Seq<TrieNode>, p: int, end: int, ups: nat, state: u32, hit: Hit)
    requires
        forest(nodes, p, end, ups),
        reads(dfa, nodes, p, end, state, hit),
    ensures
        hits_between(dfa, nodes, p, end, state).contains(hit),
    decreases end - p,
{
    let q = p + nodes[p].size();
    let label = nodes[p].label();
    let t = hit.0;
    let first = level(dfa, nodes, p, end, state);
    let second = below(dfa, nodes, p, end, state);
    let rest_first = level(dfa, nodes, q, end, state);
    let rest_second = below(dfa, nodes, q, end, state);
    lemma_concat_contains(first, second, hit);
    if t == p {
        lemma_walk_byte(dfa, state, label);
        assert(first[0] == hit);
    } else if t < q {
        lemma_walk_step(dfa, state, label, spelling(nodes, p + 1, q, t));
        let next = dfa.step(state, label)->0;
        lemma_hit_found(dfa, nodes, p + 1, q, nodes[p].ups() + 1, next, hit);
        assert(second == rest_second + hits_between(dfa, nodes, p + 1, q, next));
        lemma_concat_contains(rest_second, hits_between(dfa, nodes, p + 1, q, next), hit);
    } else {
        lemma_hit_found(dfa, nodes, q, end, ups, state, hit);
        lemma_concat_contains(rest_first, rest_second, hit);
        let here_first = first.take(first.len() - rest_first.len());
        let here_second = second.skip(rest_second.len() as int);
        assert(first =~= here_first + rest_first);
        assert(second =~= rest_second + here_second);
        lemma_concat_contains(here_first, rest_first, hit);
        lemma_concat_contains(rest_second, here_second, hit);
    }
}

/// The tokens that can be read from a state are exactly those whose bytes lead from it to a state,
/// and each of them is found once.
pub proof fn lemma_hits(dfa: Dfa, nodes: Seq<TrieNode>, p: int, end: int, ups: nat, state: u32)
    requires
        forest(nodes, p, end, ups),
    ensures
        forall|hit: Hit|
            hits_between(dfa, nodes, p, end, state).contains(hit) <==> #[trigger] reads(
                dfa,
                nodes,
                p,
                end,
                state,
                hit,
            ),
        apart(hits_between(dfa, nodes, p, end, state)),
{
    let first = level(dfa, nodes, p, end, state);
    let second = below(dfa, nodes, p, end, state);
    let all = hits_between(dfa, nodes, p, end, state);
    lemma_level(dfa, nodes, p, end, ups, state);
    lemma_below(dfa, nodes, p, end, ups, state);
    lemma_hits_apart(dfa, nodes, p, end, ups, state);
    assert forall|hit: Hit| all.contains(hit) <==> #[trigger] reads(dfa, nodes, p, end, state, hit) by {
        if all.contains(hit) {
            lemma_concat_contains(first, second, hit);
            if first.contains(hit) {
                let i = choose|i: int| 0 <= i < first.len() && first[i] == hit;
                assert(reads(dfa, nodes, p, end, state, first[i]));
            } else {
                let i = choose|i: int| 0 <= i < second.len() && second[i] == hit;
                assert(reads(dfa, nodes, p, end, state, second[i]));
            }
        }
        if reads(dfa, nodes, p, end, state, hit) {
            lemma_hit_found(dfa, nodes, p, end, ups, state, hit);
        }
    }
}

/// There are not more tokens than nodes.
pub proof fn lemma_hit_count(dfa: Dfa, nodes: Seq<TrieNode>, p: int, end: int, state: u32)
    requires
        p <= end,
    ensures
        level(dfa, nodes, p, end, state).len() + below(dfa, nodes, p, end, state).len() <= end - p,
    decreases end - p,
{
    let q = p + nodes[p].size();
    if 0 <= p < q <= end {
        lemma_hit_count(dfa, nodes, q, end, state);
        if let Some(next) = dfa.step(state, nodes[p].label()) {
            lemma_hit_count(dfa, nodes, p + 1, q, next);
        }
    }
}

/// What is known stays known under its number, no state gets two numbers, and the states behind
/// the tokens become known.
pub proof fn lemma_with_targets(found: Seq<u32>, reached: Seq<Hit>)
    requires
        found.no_duplicates(),
    ensures
        found.len() <= with_targets(found, reached).len(),
        with_targets(found, reached).take(found.len() as int) == found,
        with_targets(found, reached).no_duplicates(),
        forall|j: int| 0 <= j < reached.len() ==> with_targets(found, reached).contains((#[trigger] reached[j]).1),
        forall|k: int|
            found.len() <= k < with_targets(found, reached).len() ==> exists|j: int|
                0 <= j < reached.len() && (#[trigger] reached[j]).1 == #[trigger] with_targets(found, reached)[k],
    decreases reached.len(),
{
    let all = with_targets(found, reached);
    if reached.len() == 0 {
        assert(found.take(found.len() as int) =~= found);
    } else {
        let some = with_targets(found, reached.drop_last());
        lemma_with_targets(found, reached.drop_last());
        assert(all == with_state(some, reached.last().1));
        assert(all.take(found.len() as int) =~= some.take(found.len() as int));
        assert forall|j: int| 0 <= j < reached.len() implies all.contains((#[trigger] reached[j]).1) by {
            if j < reached.len() - 1 {
                assert(reached.drop_last()[j] == reached[j]);
                let k = choose|k: int| 0 <= k < some.len() && some[k] == reached[j].1;
                assert(all[k] == some[k]);
            } else if !some.contains(reached.last().1) {
                assert(all[some.len() as int] == reached.last().1);
            }
        }
        assert forall|k: int| found.len() <= k < all.len() implies exists|j: int|
            0 <= j < reached.len() && (#[trigger] reached[j]).1 == #[trigger] all[k] by {
            if k < some.len() {
                assert(all[k] == some[k]);
                let j = choose|j: int|
                    0 <= j < reached.drop_last().len() && (#[trigger] reached.drop_last()[j]).1 == some[k];
                assert(reached[j] == reached.drop_last()[j]);
            } else {
                assert(reached[reached.len() - 1].1 == all[k]);
            }
        }
    }
}

/// No state is found twice.
pub proof fn lemma_found_once(dfa: Dfa, nodes: Seq<TrieNode>, k: nat)
    ensures
        found_after(dfa, nodes, k).no_duplicates(),
        found_after(dfa, nodes, k).len() > 0,
        found_after(dfa, nodes, k)[0] == dfa.start->0,
    decreases k,
{
    if k > 0 {
        let found = found_after(dfa, nodes, (k - 1) as nat);
        lemma_found_once(dfa, nodes, (k - 1) as nat);
        if k - 1 < found.len() {
            let reached = hits(dfa, nodes, found[k - 1]);
            lemma_with_targets(found, reached);
            assert(with_targets(found, reached).take(found.len() as int)[0] == found[0]);
        }
    }
}

/// Once all known states were looked at, no more are found.
pub proof fn lemma_found_all(dfa: Dfa, nodes: Seq<TrieNode>, k: nat, later: nat)
    requires
        k <= later,
        found_after(dfa, nodes, k).len() <= k,
    ensures
        found_after(dfa, nodes, later) == found_after(dfa, nodes, k),
    decreases later,
{
    if k < later {
        lemma_found_all(dfa, nodes, k, (later - 1) as nat);
    }
}

/// States keep their places when more are found.
pub proof fn lemma_found_prefix(dfa: Dfa, nodes: Seq<TrieNode>, k: nat, later: nat)
    requires
        k <= later,
    ensures
        found_after(dfa, nodes, k).len() <= found_after(dfa, nodes, later).len(),
        found_after(dfa, nodes, later).take(found_after(dfa, nodes, k).len() as int) == found_after(dfa, nodes, k),
    decreases later,
{
    let found = found_after(dfa, nodes, k);
    if k == later {
        assert(found.take(found.len() as int) =~= found);
    } else {
        let middle = found_after(dfa, nodes, (later - 1) as nat);
        let all = found_after(dfa, nodes, later);
        lemma_found_prefix(dfa, nodes, k, (later - 1) as nat);
        if later - 1 < middle.len() {
            lemma_found_once(dfa, nodes, (later - 1) as nat);
            lemma_with_targets(middle, hits(dfa, nodes, middle[later - 1]));
            assert(all.take(found.len() as int) =~= all.take(middle.len() as int).take(found.len() as int));
        }
    }
}

/// What the states of an index lead to are states of the index.
pub proof fn lemma_states_closed(dfa: Dfa, nodes: Seq<TrieNode>, k: int)
    requires
        0 <= k < index_states(dfa, nodes).len() <= STATE_LIMIT,
    ensures
        forall|j: int|
            0 <= j < hits(dfa, nodes, index_states(dfa, nodes)[k]).len() ==> index_states(dfa, nodes).contains(
                (#[trigger] hits(dfa, nodes, index_states(dfa, nodes)[k])[j]).1,
            ),
{
    let states = index_states(dfa, nodes);
    let found = found_after(dfa, nodes, k as nat);
    let more = found_after(dfa, nodes, (k + 1) as nat);
    if found.len() <= k {
        lemma_found_all(dfa, nodes, k as nat, STATE_LIMIT as nat);
    }
    lemma_found_once(dfa, nodes, k as nat);
    lemma_found_prefix(dfa, nodes, k as nat, STATE_LIMIT as nat);
    lemma_found_prefix(dfa, nodes, (k + 1) as nat, STATE_LIMIT as nat);
    assert(states.take(found.len() as int)[k] == states[k]);
    let reached = hits(dfa, nodes, states[k]);
    lemma_with_targets(found, reached);
    assert forall|j: int| 0 <= j < reached.len() implies states.contains((#[trigger] reached[j]).1) by {
        let i = choose|i: int| 0 <= i < more.len() && more[i] == reached[j].1;
        assert(states.take(more.len() as int)[i] == states[i]);
    }
}

/// Every state but the first is behind a token that can be read from an earlier state.
pub proof fn lemma_state_found(dfa: Dfa, nodes: Seq<TrieNode>, later: nat, k: int) -> (place: (int, int))
    requires
        0 < k < found_after(dfa, nodes, later).len(),
    ensures
        ({
            let states = found_after(dfa, nodes, later);
            let reached = hits(dfa, nodes, states[place.0]);
            &&& 0 <= place.0 < k
            &&& place.0 < later
            &&& 0 <= place.1 < reached.len()
            &&& reached[place.1].1 == states[k]
        }),
    decreases later,
{
    let states = found_after(dfa, nodes, later);
    assert(later > 0);
    let found = found_after(dfa, nodes, (later - 1) as nat);
    lemma_found_prefix(dfa, nodes, (later - 1) as nat, later);
    assert forall|i: int| 0 <= i < found.len() implies states[i] == #[trigger] found[i] by {
        assert(states.take(found.len() as int)[i] == states[i]);
    }
    if k < found.len() {
        lemma_state_found(dfa, nodes, (later - 1) as nat, k)
    } else {
        lemma_found_once(dfa, nodes, (later - 1) as nat);
        let reached = hits(dfa, nodes, found[later - 1]);
        lemma_with_targets(found, reached);
        let j = choose|j: int| 0 <= j < reached.len() && (#[trigger] reached[j]).1 == states[k];
        (later - 1, j)
    }
}

/// What stands behind `a` is read before what stands behind `b`: `a` is a front of `b`, or has the
/// greater byte where the two first differ.
pub open spec fn expanded_before(a: Seq<u8>, b: Seq<u8>) -> bool {
    exists|n: int|
        0 <= n <= a.len() && n < b.len() && #[trigger] a.take(n) == b.take(n) && (n == a.len() || a[n] > b[n])
}

/// The token `a` is listed before the token `b`: by their last bytes where the rest is the same, and
/// otherwise by the order in which the rests are expanded.
pub open spec fn listed_before(a: Seq<u8>, b: Seq<u8>) -> bool {
    ||| a.drop_last() == b.drop_last() && a.last() < b.last()
    ||| expanded_before(a.drop_last(), b.drop_last())
}

/// A common first byte does not change the order.
proof fn lemma_listed_behind(byte: u8, a: Seq<u8>, b: Seq<u8>)
    requires
        a.len() > 0,
        b.len() > 0,
        listed_before(a, b),
    ensures
        listed_before(seq![byte] + a, seq![byte] + b),
{
    let x = seq![byte] + a;
    let y = seq![byte] + b;
    assert(x.drop_last() =~= seq![byte] + a.drop_last());
    assert(y.drop_last() =~= seq![byte] + b.drop_last());
    if !(a.drop_last() == b.drop_last() && a.last() < b.last()) {
        let c = a.drop_last();
        let d = b.drop_last();
        let n = choose|n: int|
            0 <= n <= c.len() && n < d.len() && #[trigger] c.take(n) == d.take(n) && (n == c.len() || c[n] > d[n]);
        assert(x.drop_last().take(n + 1) =~= seq![byte] + c.take(n));
        assert(y.drop_last().take(n + 1) =~= seq![byte] + d.take(n));
    }
}

/// The tokens of a level are listed by their bytes.
proof fn lemma_level_order(dfa: Dfa, nodes: Seq<TrieNode>, p: int, end: int, ups: nat, state: u32, i: int, j: int)
    requires
        forest(nodes, p, end, ups),
        0 <= i < j < level(dfa, nodes, p, end, state).len(),
    ensures
        listed_before(
            spelling(nodes, p, end, level(dfa, nodes, p, end, state)[i].0),
            spelling(nodes, p, end, level(dfa, nodes, p, end, state)[j].0),
        ),
    decreases end - p,
{
    let q = p + nodes[p].size();
    let all = level(dfa, nodes, p, end, state);
    let rest = level(dfa, nodes, q, end, state);
    let skipped = all.len() - rest.len();
    lemma_level(dfa, nodes, p, end, ups, state);
    lemma_level(dfa, nodes, q, end, ups, state);
    assert(all[j] == rest[j - skipped]);
    let a = spelling(nodes, p, end, all[i].0);
    let b = spelling(nodes, p, end, all[j].0);
    if i < skipped {
        assert(all[i].0 == p);
        lemma_first_byte(nodes, p, end, ups, all[j].0);
        assert(a.drop_last() =~= b.drop_last());
    } else {
        assert(all[i] == rest[i - skipped]);
        lemma_level_order(dfa, nodes, q, end, ups, state, i - skipped, j - skipped);
    }
}

/// The tokens below a level are listed in order.
proof fn lemma_below_order(dfa: Dfa, nodes: Seq<TrieNode>, p: int, end: int, ups: nat, state: u32, i: int, j: int)
    requires
        forest(nodes, p, end, ups),
        0 <= i < j < below(dfa, nodes, p, end, state).len(),
    ensures
        listed_before(
            spelling(nodes, p, end, below(dfa, nodes, p, end, state)[i].0),
            spelling(nodes, p, end, below(dfa, nodes, p, end, state)[j].0),
        ),
    decreases end - p, 0int,
{
    let q = p + nodes[p].size();
    let behind = below(dfa, nodes, q, end, state);
    let all = below(dfa, nodes, p, end, state);
    lemma_below(dfa, nodes, p, end, ups, state);
    lemma_below(dfa, nodes, q, end, ups, state);
    let a = spelling(nodes, p, end, all[i].0);
    let b = spelling(nodes, p, end, all[j].0);
    if j < behind.len() {
        assert(all[i] == behind[i] && all[j] == behind[j]);
        lemma_below_order(dfa, nodes, q, end, ups, state, i, j);
    } else {
        let next = dfa.step(state, nodes[p].label())->0;
        let here = hits_between(dfa, nodes, p + 1, q, next);
        let inner_ups = nodes[p].ups() + 1;
        assert(all == behind + here);
        assert(all[j] == here[j - behind.len()]);
        lemma_hits(dfa, nodes, p + 1, q, inner_ups, next);
        assert(here.contains(here[j - behind.len()]));
        assert(reads(dfa, nodes, p + 1, q, next, here[j - behind.len()]));
        if i < behind.len() {
            assert(all[i] == behind[i]);
            lemma_first_byte(nodes, p, end, ups, all[i].0);
            assert(b[0] == nodes[p].label());
            assert(a.drop_last()[0] > b.drop_last()[0]);
            assert(a.drop_last().take(0) =~= b.drop_last().take(0));
        } else {
            assert(all[i] == here[i - behind.len()]);
            assert(here.contains(here[i - behind.len()]));
            assert(reads(dfa, nodes, p + 1, q, next, here[i - behind.len()]));
            lemma_hit_order(dfa, nodes, p + 1, q, inner_ups, next, i - behind.len(), j - behind.len());
            lemma_first_byte(nodes, p + 1, q, inner_ups, all[i].0);
            lemma_first_byte(nodes, p + 1, q, inner_ups, all[j].0);
            lemma_listed_behind(
                nodes[p].label(),
                spelling(nodes, p + 1, q, all[i].0),
                spelling(nodes, p + 1, q, all[j].0),
            );
        }
    }
}

/// The tokens that can be read are listed in order.
pub proof fn lemma_hit_order(dfa: Dfa, nodes: Seq<TrieNode>, p: int, end: int, ups: nat, state: u32, i: int, j: int)
    requires
        forest(nodes, p, end, ups),
        0 <= i < j < hits_between(dfa, nodes, p, end, state).len(),
    ensures
        listed_before(
            spelling(nodes, p, end, hits_between(dfa, nodes, p, end, state)[i].0),
            spelling(nodes, p, end, hits_between(dfa, nodes, p, end, state)[j].0),
        ),
    decreases end - p, 1int,
{
    let first = level(dfa, nodes, p, end, state);
    let second = below(dfa, nodes, p, end, state);
    let all = hits_between(dfa, nodes, p, end, state);
    lemma_level(dfa, nodes, p, end, ups, state);
    lemma_below(dfa, nodes, p, end, ups, state);
    if j < first.len() {
        assert(all[i] == first[i] && all[j] == first[j]);
        lemma_level_order(dfa, nodes, p, end, ups, state, i, j);
    } else {
        assert(all[j] == second[j - first.len()]);
        if i < first.len() {
            assert(all[i] == first[i]);
            let a = spelling(nodes, p, end, all[i].0).drop_last();
            let b = spelling(nodes, p, end, all[j].0).drop_last();
            assert(a.take(0) =~= b.take(0));
        } else {
            assert(all[i] == second[i - first.len()]);
            lemma_below_order(dfa, nodes, p, end, ups, state, i - first.len(), j - first.len());
        }
    }
}

/// The states behind the first tokens become known first.
proof fn lemma_targets_prefix(found: Seq<u32>, reached: Seq<Hit>, n: int)
    requires
        0 <= n <= reached.len(),
    ensures
        with_targets(found, reached.take(n)).len() <= with_targets(found, reached).len(),
        with_targets(found, reached).take(with_targets(found, reached.take(n)).len() as int) == with_targets(
            found,
            reached.take(n),
        ),
    decreases reached.len() - n,
{
    let some = with_targets(found, reached.take(n));
    let all = with_targets(found, reached);
    if n == reached.len() {
        assert(reached.take(n) =~= reached);
        assert(all.take(all.len() as int) =~= all);
    } else {
        lemma_targets_prefix(found, reached, n + 1);
        assert(reached.take(n + 1).drop_last() =~= reached.take(n));
        let more = with_targets(found, reached.take(n + 1));
        assert(more == with_state(some, reached[n].1));
        assert(more.take(some.len() as int) =~= some);
        assert(all.take(some.len() as int) =~= all.take(more.len() as int).take(some.len() as int));
    }
}

/// Where a state is found behind a token, every state with a smaller number was found before: behind
/// an earlier token of the same state, or behind a token of an earlier state.
pub proof fn lemma_found_in_turn(dfa: Dfa, nodes: Seq<TrieNode>, m: int, j: int, k: int, l: int) -> (place: (
    int,
    int,
))
    requires
        index_states(dfa, nodes).len() <= STATE_LIMIT,
        0 < k < l < index_states(dfa, nodes).len(),
        0 <= m < index_states(dfa, nodes).len(),
        0 <= j < hits(dfa, nodes, index_states(dfa, nodes)[m]).len(),
        hits(dfa, nodes, index_states(dfa, nodes)[m])[j].1 == index_states(dfa, nodes)[l],
    ensures
        ({
            let states = index_states(dfa, nodes);
            let reached = hits(dfa, nodes, states[place.0]);
            &&& 0 <= place.0 < states.len()
            &&& 0 <= place.1 < reached.len()
            &&& reached[place.1].1 == states[k]
            &&& place.0 < m || (place.0 == m && place.1 < j)
        }),
{
    let states = index_states(dfa, nodes);
    let limit = STATE_LIMIT as nat;
    let found = found_after(dfa, nodes, m as nat);
    if found.len() <= m {
        lemma_found_all(dfa, nodes, m as nat, limit);
    }
    lemma_found_once(dfa, nodes, m as nat);
    lemma_found_once(dfa, nodes, limit);
    lemma_found_prefix(dfa, nodes, m as nat, limit);
    lemma_found_prefix(dfa, nodes, (m + 1) as nat, limit);
    assert forall|x: int| 0 <= x < found.len() implies states[x] == #[trigger] found[x] by {
        assert(states.take(found.len() as int)[x] == states[x]);
    }
    let reached = hits(dfa, nodes, states[m]);
    let next = found_after(dfa, nodes, (m + 1) as nat);
    assert(next == with_targets(found, reached));
    let first = reached.take(j + 1);
    let some = with_targets(found, first);
    lemma_targets_prefix(found, reached, j + 1);
    lemma_with_targets(found, first);
    assert forall|x: int| 0 <= x < some.len() implies states[x] == #[trigger] some[x] by {
        assert(next.take(some.len() as int)[x] == next[x]);
        assert(states.take(next.len() as int)[x] == states[x]);
    }
    assert(some.contains(first[j].1));
    let x = choose|x: int| 0 <= x < some.len() && some[x] == states[l];
    assert(states[x] == states[l]);
    assert(x == l);
    if k < found.len() {
        let place = lemma_state_found(dfa, nodes, m as nat, k);
        assert(states[place.0] == found[place.0]);
        place
    } else {
        let i = choose|i: int| 0 <= i < first.len() && (#[trigger] first[i]).1 == some[k];
        assert(reached[i] == first[i]);
        assert(states[k] == some[k]);
        assert(i != j);
        (m, i)
    }
}

} // verus!
