//! Walking a trie and an automaton in step.
use vstd::prelude::*;

use crate::automaton::{Automaton, Dfa};
use crate::index::numbering::Numbering;
use crate::index::reach::{below, hits, hits_between, level, with_targets, Hit};
use crate::primitives::{StateId, TokenId};
use crate::state_transitions::Row;
use crate::vocabulary::flat::{forest, lemma_node, siblings};
use crate::vocabulary::node::TrieNode;
use crate::vocabulary::trie::{NodeChildren, NodeRef, Trie};

verus! {

/// The entries of `row` are those of the tokens `reached`, with numbers under which the states
/// stand in `states`.
pub(crate) open spec fn row_leads(row: Row, nodes: Seq<TrieNode>, states: Seq<u32>, reached: Seq<Hit>) -> bool {
    &&& row.len() == reached.len()
    &&& forall|j: int|
        0 <= j < row.len() ==> {
            &&& (#[trigger] row[j]).0 == nodes[reached[j].0].token()->0
            &&& row[j].1 < states.len()
            &&& states[row[j].1 as int] == reached[j].1
        }
}

/// Numbers stay right when more states become known.
pub(crate) proof fn lemma_row_leads(
    row: Row,
    nodes: Seq<TrieNode>,
    states: Seq<u32>,
    reached: Seq<Hit>,
    more: Seq<u32>,
)
    requires
        row_leads(row, nodes, states, reached),
        states.len() <= more.len(),
        more.take(states.len() as int) == states,
    ensures
        row_leads(row, nodes, more, reached),
{
    assert forall|j: int| 0 <= j < row.len() implies {
        &&& (#[trigger] row[j]).0 == nodes[reached[j].0].token()->0
        &&& row[j].1 < more.len()
        &&& more[row[j].1 as int] == reached[j].1
    } by {
        assert(more.take(states.len() as int)[row[j].1 as int] == more[row[j].1 as int]);
    }
}

/// The tokens below the nodes on a stack, where each node is paired with the state behind it.
pub(crate) open spec fn pending(dfa: Dfa, nodes: Seq<TrieNode>, stack: Seq<(NodeRef, u32)>) -> Seq<Hit>
    decreases stack.len(),
{
    if stack.len() == 0 {
        Seq::empty()
    } else {
        let p = stack.last().0.place();
        hits_between(dfa, nodes, p + 1, p + nodes[p].size(), stack.last().1) + pending(dfa, nodes, stack.drop_last())
    }
}

/// The number of nodes in the subtrees of the nodes on a stack.
pub(crate) open spec fn weight(nodes: Seq<TrieNode>, stack: Seq<(NodeRef, u32)>) -> nat
    decreases stack.len(),
{
    if stack.len() == 0 {
        0
    } else {
        nodes[stack.last().0.place()].size() + weight(nodes, stack.drop_last())
    }
}

/// One more accepted node: what is done and what is left still make up the same tokens.
proof fn lemma_node_taken(
    dfa: Dfa,
    nodes: Seq<TrieNode>,
    p: int,
    end: int,
    state: u32,
    got: Seq<Hit>,
    stack: Seq<(NodeRef, u32)>,
    node: NodeRef,
)
    requires
        0 <= p < p + nodes[p].size() <= end,
        dfa.step(state, nodes[p].label()) is Some,
        node.place() == p,
    ensures
        ({
            let q = p + nodes[p].size();
            let next = dfa.step(state, nodes[p].label())->0;
            let more = if nodes[p].token() is Some {
                got.push((p, next))
            } else {
                got
            };
            more + level(dfa, nodes, q, end, state) + below(dfa, nodes, q, end, state) + pending(
                dfa,
                nodes,
                stack.push((node, next)),
            ) == got + level(dfa, nodes, p, end, state) + below(dfa, nodes, p, end, state) + pending(
                dfa,
                nodes,
                stack,
            )
        }),
{
    let q = p + nodes[p].size();
    let next = dfa.step(state, nodes[p].label())->0;
    let longer = stack.push((node, next));
    assert(longer.drop_last() =~= stack);
    let more = if nodes[p].token() is Some {
        got.push((p, next))
    } else {
        got
    };
    let left = more + level(dfa, nodes, q, end, state) + below(dfa, nodes, q, end, state) + pending(
        dfa,
        nodes,
        longer,
    );
    let right = got + level(dfa, nodes, p, end, state) + below(dfa, nodes, p, end, state) + pending(
        dfa,
        nodes,
        stack,
    );
    assert(more + level(dfa, nodes, q, end, state) =~= got + level(dfa, nodes, p, end, state));
    let here = hits_between(dfa, nodes, p + 1, q, next);
    assert(pending(dfa, nodes, longer) == here + pending(dfa, nodes, stack));
    assert(below(dfa, nodes, p, end, state) == below(dfa, nodes, q, end, state) + here);
    assert(left =~= right);
}

/// Finds the tokens that can be read from the state `from`, with the numbers of the states behind
/// them. States that were not known get the next numbers.
pub(crate) fn read_tokens<A: Automaton>(
    automaton: &A,
    trie: &Trie,
    from: u32,
    numbering: &mut Numbering,
) -> (row: Vec<(TokenId, StateId)>)
    requires
        automaton.wf(),
        automaton.model().is_state(from),
        trie.wf(),
        old(numbering).wf(),
        old(numbering).stride == automaton.model().stride,
    ensures
        final(numbering).wf(),
        final(numbering).stride == old(numbering).stride,
        final(numbering).states@ == with_targets(
            old(numbering).states@,
            hits(automaton.model(), trie.layout(), from),
        ),
        row_leads(
            row@,
            trie.layout(),
            final(numbering).states@,
            hits(automaton.model(), trie.layout(), from),
        ),
        forall|k: int|
            old(numbering).states@.len() <= k < final(numbering).states@.len()
                ==> automaton.model().is_state(#[trigger] final(numbering).states@[k]),
{
    let ghost dfa = automaton.model();
    let ghost nodes = trie.layout();
    let ghost found = numbering.states@;
    let ghost total = hits(dfa, nodes, from);
    let ghost mut got: Seq<Hit> = Seq::empty();
    let mut row: Vec<(TokenId, StateId)> = Vec::new();
    let mut stack: Vec<(NodeRef, u32)> = Vec::new();
    stack.push((trie.root(), from));
    proof {
        assert(stack@.drop_last() =~= Seq::<(NodeRef, u32)>::empty());
        reveal_with_fuel(pending, 2);
        assert(got + pending(dfa, nodes, stack@) =~= total);
    }
    while stack.len() > 0
        invariant
            automaton.wf(),
            dfa == automaton.model(),
            trie.wf(),
            nodes == trie.layout(),
            numbering.wf(),
            numbering.stride == dfa.stride,
            numbering.stride == old(numbering).stride,
            found == old(numbering).states@,
            numbering.states@ == with_targets(found, got),
            row_leads(row@, nodes, numbering.states@, got),
            forall|k: int|
                found.len() <= k < numbering.states@.len() ==> dfa.is_state(#[trigger] numbering.states@[k]),
            forall|i: int|
                0 <= i < stack@.len() ==> trie.holds((#[trigger] stack@[i]).0) && dfa.is_state(stack@[i].1),
            got + pending(dfa, nodes, stack@) == total,
        decreases weight(nodes, stack@),
    {
        let ghost before = stack@;
        let (node, state): (NodeRef, u32) = stack[stack.len() - 1];
        stack.pop();
        assert(stack@ =~= before.drop_last());
        let ghost start = node.place() + 1;
        let ghost end = node.place() + nodes[node.place()].size();
        let ghost ups = (nodes[node.place()].ups() + 1) as nat;
        let ghost mut p: int = start;
        let mut children: NodeChildren = trie.children(&node);
        proof {
            lemma_node(nodes, node.place());
            assert(got + level(dfa, nodes, p, end, state) + below(dfa, nodes, p, end, state) + pending(
                dfa,
                nodes,
                stack@,
            ) =~= got + pending(dfa, nodes, before));
        }
        loop
            invariant_except_break
                p <= end,
            invariant
                automaton.wf(),
                dfa == automaton.model(),
                trie.wf(),
                nodes == trie.layout(),
                numbering.wf(),
                numbering.stride == dfa.stride,
                numbering.stride == old(numbering).stride,
                found == old(numbering).states@,
                numbering.states@ == with_targets(found, got),
                row_leads(row@, nodes, numbering.states@, got),
                forall|k: int|
                    found.len() <= k < numbering.states@.len() ==> dfa.is_state(#[trigger] numbering.states@[k]),
                dfa.is_state(state),
                forall|i: int|
                    0 <= i < stack@.len() ==> trie.holds((#[trigger] stack@[i]).0) && dfa.is_state(stack@[i].1),
                children.wf(),
                children.of() == *trie,
                children.remaining() == siblings(nodes, p, end),
                forest(nodes, p, end, ups),
                0 <= start - 1 < p,
                end <= nodes.len(),
                weight(nodes, stack@) + (end - p) < weight(nodes, before),
                got + level(dfa, nodes, p, end, state) + below(dfa, nodes, p, end, state) + pending(
                    dfa,
                    nodes,
                    stack@,
                ) == total,
            ensures
                p == end,
            decreases end - p,
        {
            let n: NodeRef = match children.next() {
                Some(n) => n,
                None => {
                    break ;
                },
            };
            let ghost q = p + nodes[p].size();
            assert(siblings(nodes, p, end).skip(1) =~= siblings(nodes, q, end));
            let ghost stack_before = stack@;
            let ghost got_before = got;
            let next: u32 = automaton.next_state(state, n.byte());
            if automaton.is_dead_state(next) || automaton.is_quit_state(next) {
                proof {
                    assert(level(dfa, nodes, p, end, state) =~= level(dfa, nodes, q, end, state));
                    assert(below(dfa, nodes, p, end, state) =~= below(dfa, nodes, q, end, state));
                    p = q;
                }
                continue ;
            }
            if !automaton.is_match_state(next) || automaton.is_match_state(automaton.next_eoi_state(next)) {
                if let Some(id) = n.token_id() {
                    let ghost states_before = numbering.states@;
                    let target: u32 = numbering.number(next);
                    row.push((id, target));
                    proof {
                        got = got.push((p, next));
                        assert(got.drop_last() =~= got_before);
                        assert(numbering.states@.take(states_before.len() as int) =~= states_before);
                        lemma_row_leads(
                            row@.drop_last(),
                            nodes,
                            states_before,
                            got_before,
                            numbering.states@,
                        );
                        assert(forall|j: int| 0 <= j < got_before.len() ==> row@.drop_last()[j] == #[trigger] row@[j]);
                    }
                }
                stack.push((n, next));
                proof {
                    lemma_node_taken(dfa, nodes, p, end, state, got_before, stack_before, n);
                    assert(stack@.drop_last() =~= stack_before);
                    p = q;
                }
            } else {
                proof {
                    assert(level(dfa, nodes, p, end, state) =~= level(dfa, nodes, q, end, state));
                    assert(below(dfa, nodes, p, end, state) =~= below(dfa, nodes, q, end, state));
                    p = q;
                }
            }
        }
        proof {
            assert(got + level(dfa, nodes, end, end, state) + below(dfa, nodes, end, end, state) + pending(
                dfa,
                nodes,
                stack@,
            ) =~= got + pending(dfa, nodes, stack@));
        }
    }
    assert(got =~= total);
    row
}

} // verus!
