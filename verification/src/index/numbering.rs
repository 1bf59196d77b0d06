//! Consecutive numbers for the states of an automaton.
use vstd::prelude::*;

use crate::automaton::STATE_LIMIT;
use crate::index::reach::with_state;
use crate::state_transitions::EMPTY;

verus! {

/// The states that were found so far. A state has its place among them as its number.
pub(crate) struct Numbering {
    pub(crate) states: Vec<u32>,
    /// For each multiple of the stride, the number of the state with that id.
    pub(crate) slots: Vec<u32>,
    pub(crate) stride: usize,
}

/// The slot for the state `id`.
spec fn slot_of(id: u32, stride: usize) -> int {
    id as int / stride as int
}

/// Ids that are multiples of the stride have slots of their own.
proof fn lemma_slot(id: u32, stride: usize)
    requires
        stride > 0,
        id as nat % stride as nat == 0,
    ensures
        0 <= slot_of(id, stride) <= id,
        id == stride * slot_of(id, stride),
{
    vstd::arithmetic::div_mod::lemma_fundamental_div_mod(id as int, stride as int);
    vstd::arithmetic::div_mod::lemma_div_is_ordered_by_denominator(id as int, 1, stride as int);
    vstd::arithmetic::div_mod::lemma_div_pos_is_pos(id as int, stride as int);
}

/// Different numbers below a limit are not more than the limit says.
proof fn lemma_bounded_count(states: Seq<u32>, limit: nat)
    requires
        states.no_duplicates(),
        forall|i: int| 0 <= i < states.len() ==> #[trigger] states[i] < limit,
    ensures
        states.len() <= limit,
{
    let ints: Seq<int> = Seq::new(states.len(), |i: int| states[i] as int);
    assert(ints.no_duplicates()) by {
        assert forall|i: int, j: int| 0 <= i < ints.len() && 0 <= j < ints.len() && i != j implies ints[i]
            != ints[j] by {
            assert(states[i] != states[j]);
        }
    }
    ints.unique_seq_to_set();
    let range = vstd::set_lib::set_int_range(0, limit as int);
    vstd::set_lib::lemma_int_range(0, limit as int);
    assert(ints.to_set().subset_of(range)) by {
        assert forall|x: int| ints.to_set().contains(x) implies range.contains(x) by {
            let i = choose|i: int| 0 <= i < ints.len() && ints[i] == x;
            assert(states[i] < limit);
        }
    }
    vstd::set_lib::lemma_len_subset(ints.to_set(), range);
}

impl Numbering {
    /// `id` can be the id of a state.
    pub(crate) open spec fn fits(&self, id: u32) -> bool {
        &&& id < STATE_LIMIT
        &&& id as nat % self.stride as nat == 0
    }

    /// The slots lead to the numbers of exactly the known states.
    pub(crate) closed spec fn wf(&self) -> bool {
        &&& self.stride > 0
        &&& self.states@.no_duplicates()
        &&& forall|i: int| 0 <= i < self.states@.len() ==> self.fits(#[trigger] self.states@[i])
        &&& forall|i: int|
            0 <= i < self.states@.len() ==> {
                &&& slot_of(#[trigger] self.states@[i], self.stride) < self.slots@.len()
                &&& self.slots@[slot_of(self.states@[i], self.stride)] == i
            }
        &&& forall|q: int|
            0 <= q < self.slots@.len() && #[trigger] self.slots@[q] != EMPTY ==> {
                &&& self.slots@[q] < self.states@.len()
                &&& slot_of(self.states@[self.slots@[q] as int], self.stride) == q
            }
    }

    /// The known states are different, and not more than there are ids.
    pub(crate) proof fn lemma_count(&self)
        requires
            self.wf(),
        ensures
            self.states@.no_duplicates(),
            self.states@.len() <= STATE_LIMIT,
    {
        lemma_bounded_count(self.states@, STATE_LIMIT as nat);
    }

    /// Only the state `start`, with the number 0.
    pub(crate) fn new(start: u32, stride: usize) -> (r: Self)
        requires
            stride > 0,
            start < STATE_LIMIT,
            start as nat % stride as nat == 0,
        ensures
            r.wf(),
            r.stride == stride,
            r.states@ == seq![start],
    {
        let mut r = Numbering { states: Vec::new(), slots: Vec::new(), stride };
        let number: u32 = r.number(start);
        assert(r.states@ =~= seq![start]);
        r
    }

    /// The number of the state `id`, a new one if it was not known.
    pub(crate) fn number(&mut self, id: u32) -> (r: u32)
        requires
            old(self).wf(),
            old(self).fits(id),
        ensures
            final(self).wf(),
            final(self).stride == old(self).stride,
            final(self).states@ == with_state(old(self).states@, id),
            r < final(self).states@.len(),
            final(self).states@[r as int] == id,
    {
        let slot: usize = id as usize / self.stride;
        proof {
            lemma_slot(id, self.stride);
        }
        if slot < self.slots.len() && self.slots[slot] != EMPTY {
            let r: u32 = self.slots[slot];
            proof {
                lemma_slot(self.states@[r as int], self.stride);
                assert(self.states@.contains(self.states@[r as int]));
            }
            return r;
        }
        proof {
            if self.states@.contains(id) {
                let i = choose|i: int| 0 <= i < self.states@.len() && self.states@[i] == id;
                assert(self.slots@[slot as int] == i);
                lemma_bounded_count(self.states@, STATE_LIMIT as nat);
            }
        }
        while self.slots.len() <= slot
            invariant
                self.states == old(self).states,
                self.stride == old(self).stride,
                slot < STATE_LIMIT,
                old(self).slots@.len() <= self.slots@.len(),
                self.slots@.take(old(self).slots@.len() as int) == old(self).slots@,
                forall|q: int|
                    old(self).slots@.len() <= q < self.slots@.len() ==> #[trigger] self.slots@[q] == EMPTY,
            decreases slot + 1 - self.slots@.len(),
        {
            self.slots.push(EMPTY);
            assert(self.slots@.take(old(self).slots@.len() as int) =~= old(self).slots@);
        }
        proof {
            assert forall|q: int| 0 <= q < old(self).slots@.len() implies self.slots@[q] == #[trigger] old(
                self,
            ).slots@[q] by {
                assert(self.slots@.take(old(self).slots@.len() as int)[q] == self.slots@[q]);
            }
        }
        let r: usize = self.states.len();
        proof {
            let longer = self.states@.push(id);
            assert(longer.no_duplicates());
            lemma_bounded_count(longer, STATE_LIMIT as nat);
        }
        self.slots[slot] = r as u32;
        self.states.push(id);
        proof {
            assert forall|i: int| 0 <= i < self.states@.len() implies {
                &&& slot_of(#[trigger] self.states@[i], self.stride) < self.slots@.len()
                &&& self.slots@[slot_of(self.states@[i], self.stride)] == i
            } by {
                if i < r {
                    assert(self.states@[i] == old(self).states@[i]);
                    lemma_slot(self.states@[i], self.stride);
                    assert(slot_of(self.states@[i], self.stride) != slot);
                }
            }
            assert forall|i: int| 0 <= i < self.states@.len() implies self.fits(#[trigger] self.states@[i]) by {
                if i < r {
                    assert(old(self).fits(old(self).states@[i]));
                }
            }
            assert forall|q: int| 0 <= q < self.slots@.len() && #[trigger] self.slots@[q] != EMPTY implies {
                &&& self.slots@[q] < self.states@.len()
                &&& slot_of(self.states@[self.slots@[q] as int], self.stride) == q
            } by {
                if q != slot {
                    assert(self.slots@[q] == old(self).slots@[q]);
                }
            }
        }
        r as u32
    }
}

} // verus!
