//! The trie with growing nodes through which a flat trie is built.
use vstd::prelude::*;

use crate::primitives::TokenId;
use crate::vocabulary::node::NO_TOKEN;
use crate::vocabulary::words::{is_dense, is_node, is_prefix, last_number, lemma_prefix_push, next_bytes, word_list};

verus! {

/// A node fans out to all 256 bytes once it has more children than this.
pub const DENSE_LIMIT: usize = 250;

/// The children of a node that has all 256 of them.
pub const FULL: usize = 0x100;

/// A trie whose nodes hold their children, in the order of their bytes.
#[derive(Debug)]
pub struct HashTrie {
    pub token_id: u32,
    pub byte: u8,
    pub children: Vec<HashTrie>,
}

/// The position of the child that `b` leads to.
pub open spec fn child_index(children: Seq<HashTrie>, b: u8) -> Option<int> {
    if exists|i: int| 0 <= i < children.len() && (#[trigger] children[i]).byte == b {
        Some(choose|i: int| 0 <= i < children.len() && (#[trigger] children[i]).byte == b)
    } else {
        None
    }
}

/// The children stand in the order of their bytes.
pub open spec fn sorted(children: Seq<HashTrie>) -> bool {
    forall|i: int, j: int|
        0 <= i < j < children.len() ==> (#[trigger] children[i]).byte < (#[trigger] children[j]).byte
}

impl HashTrie {
    /// The token field of the node that `path` leads to; `None` where it leads to none.
    pub open spec fn at(&self, path: Seq<u8>) -> Option<u32>
        decreases path.len(),
    {
        if path.len() == 0 {
            Some(self.token_id)
        } else {
            match child_index(self.children@, path[0]) {
                Some(i) => self.children@[i].at(path.skip(1)),
                None => None,
            }
        }
    }

    /// The token field of the node that `path` leads to; that of a node without a token where it
    /// leads to none.
    pub open spec fn token_field(&self, path: Seq<u8>) -> u32 {
        match self.at(path) {
            Some(token_id) => token_id,
            None => NO_TOKEN,
        }
    }

    /// Children are sorted, and there are either few of them or all.
    pub open spec fn wf(&self) -> bool
        decreases self,
    {
        &&& sorted(self.children@)
        &&& self.children@.len() <= DENSE_LIMIT || self.children@.len() == FULL
        &&& forall|i: int| 0 <= i < self.children@.len() ==> (#[trigger] self.children@[i]).wf()
    }
}

/// The bytes that lead on from the node that `path` leads to.
pub open spec fn branches(t: HashTrie, path: Seq<u8>) -> Set<u8> {
    Set::new(|b: u8| t.at(path.push(b)) is Some)
}

/// How many bytes lead on from the first `d` bytes of `word` once `word` has been inserted, before
/// the node fans out.
pub open spec fn branches_with(t: HashTrie, word: Seq<u8>, d: int) -> nat {
    branches(t, word.take(d)).len() + if t.at(word.take(d + 1)) is Some {
        0nat
    } else {
        1
    }
}

/// What `at` says of `path` after `token_id` was inserted under `word`.
pub open spec fn inserted(t: HashTrie, word: Seq<u8>, token_id: u32, path: Seq<u8>) -> Option<u32> {
    if path == word {
        Some(token_id)
    } else if t.at(path) is Some {
        t.at(path)
    } else if path.is_prefix_of(word) {
        Some(NO_TOKEN)
    } else if 0 < path.len() <= word.len() && path.drop_last().is_prefix_of(word) && branches_with(
        t,
        word,
        path.len() - 1,
    ) > DENSE_LIMIT {
        Some(NO_TOKEN)
    } else {
        None
    }
}

/// Sorted children have different bytes, so the child at `i` is the one its byte leads to.
pub proof fn lemma_child_index(children: Seq<HashTrie>, i: int)
    requires
        sorted(children),
        0 <= i < children.len(),
    ensures
        child_index(children, children[i].byte) == Some(i),
{
    let j = child_index(children, children[i].byte)->0;
    assert(children[i].byte == children[j].byte);
}

/// The child that `b` leads to has that byte.
pub proof fn lemma_child_found(children: Seq<HashTrie>, b: u8)
    requires
        child_index(children, b) is Some,
    ensures
        0 <= child_index(children, b)->0 < children.len(),
        children[child_index(children, b)->0].byte == b,
{
}

/// Every set of bytes is finite and has at most 256 members.
pub proof fn lemma_byte_set(s: Set<u8>)
    ensures
        s.finite(),
        s.len() <= 256,
{
    let all: Seq<u8> = Seq::new(256, |i: int| i as u8);
    all.unique_seq_to_set();
    assert forall|b: u8| all.to_set().contains(b) by {
        assert(all[b as int] == b);
    }
    assert(s.subset_of(all.to_set()));
    vstd::set_lib::lemma_len_subset(s, all.to_set());
}

/// The root has as many branches as children.
pub proof fn lemma_root_branches(t: HashTrie)
    requires
        t.wf(),
    ensures
        branches(t, Seq::empty()).len() == t.children@.len(),
        forall|b: u8| #[trigger] branches(t, Seq::empty()).contains(b) <==> child_index(t.children@, b) is Some,
{
    let bytes: Seq<u8> = Seq::new(t.children@.len(), |i: int| t.children@[i].byte);
    assert(bytes.no_duplicates());
    bytes.unique_seq_to_set();
    assert forall|b: u8| #[trigger] branches(t, Seq::empty()).contains(b) <==> child_index(t.children@, b) is Some by {
        let path = Seq::<u8>::empty().push(b);
        assert(path[0] == b);
        reveal_with_fuel(HashTrie::at, 2);
    }
    assert forall|b: u8| #[trigger] branches(t, Seq::empty()).contains(b) <==> bytes.to_set().contains(b) by {
        if child_index(t.children@, b) is Some {
            let i = child_index(t.children@, b)->0;
            assert(bytes[i] == b);
        }
        if bytes.to_set().contains(b) {
            let i = choose|i: int| 0 <= i < bytes.len() && bytes[i] == b;
            assert(t.children@[i].byte == b);
        }
    }
    assert(branches(t, Seq::empty()) =~= bytes.to_set());
}

/// 256 sorted children have all bytes, each at its own position.
pub proof fn lemma_full(children: Seq<HashTrie>, i: int)
    requires
        sorted(children),
        children.len() == FULL,
        0 <= i < FULL,
    ensures
        children[i].byte == i,
{
    lemma_full_below(children, i);
    lemma_full_above(children, i);
}

/// Siblings have different bytes, and where a node has all 256 children, each stands at the position
/// of its byte. The same holds below every child.
pub proof fn law_children_distinct(t: HashTrie)
    requires
        t.wf(),
    ensures
        forall|i: int, j: int|
            0 <= i < j < t.children@.len() ==> (#[trigger] t.children@[i]).byte != (#[trigger] t.children@[j]).byte,
        t.children@.len() == FULL ==> forall|k: int| 0 <= k < FULL ==> (#[trigger] t.children@[k]).byte == k,
        forall|i: int| 0 <= i < t.children@.len() ==> (#[trigger] t.children@[i]).wf(),
{
    if t.children@.len() == FULL {
        assert forall|k: int| 0 <= k < FULL implies (#[trigger] t.children@[k]).byte == k by {
            lemma_full(t.children@, k);
        }
    }
}

/// The empty path leads to the node itself, and every other one through the child with its first
/// byte; where no child has that byte, it leads nowhere.
pub proof fn law_paths_go_through_children(t: HashTrie, path: Seq<u8>, i: int)
    requires
        t.wf(),
    ensures
        path.len() == 0 ==> t.at(path) == Some(t.token_id) && t.token_field(path) == t.token_id,
        path.len() > 0 && 0 <= i < t.children@.len() && t.children@[i].byte == path[0] ==> t.at(path)
            == t.children@[i].at(path.skip(1)) && t.token_field(path) == t.children@[i].token_field(path.skip(1)),
        path.len() > 0 && (forall|j: int| 0 <= j < t.children@.len() ==> (#[trigger] t.children@[j]).byte != path[0])
            ==> t.at(path) is None && t.token_field(path) == 0xFF_FFFF,
{
    if path.len() > 0 && 0 <= i < t.children@.len() && t.children@[i].byte == path[0] {
        lemma_child_index(t.children@, i);
    }
}

proof fn lemma_full_below(children: Seq<HashTrie>, i: int)
    requires
        sorted(children),
        children.len() == FULL,
        0 <= i < FULL,
    ensures
        children[i].byte >= i,
    decreases i,
{
    if i > 0 {
        lemma_full_below(children, i - 1);
        assert(children[i - 1].byte < children[i].byte);
    }
}

proof fn lemma_full_above(children: Seq<HashTrie>, i: int)
    requires
        sorted(children),
        children.len() == FULL,
        0 <= i < FULL,
    ensures
        children[i].byte <= i,
    decreases FULL - i,
{
    if i < FULL - 1 {
        lemma_full_above(children, i + 1);
        assert(children[i].byte < children[i + 1].byte);
    }
}

/// Inserting below the child at `i` inserts the whole word.
proof fn lemma_insert_below(before: HashTrie, after: HashTrie, word: Seq<u8>, token_id: u32, i: int)
    requires
        before.wf(),
        word.len() > 0,
        0 <= i < before.children@.len(),
        before.children@[i].byte == word[0],
        after.token_id == before.token_id,
        after.children@.len() == before.children@.len(),
        after.children@[i].byte == word[0],
        after.children@[i].wf(),
        forall|j: int| 0 <= j < before.children@.len() && j != i ==> after.children@[j] == before.children@[j],
        forall|path: Seq<u8>| #[trigger]
            after.children@[i].at(path) == inserted(before.children@[i], word.skip(1), token_id, path),
    ensures
        after.wf(),
        forall|path: Seq<u8>| #[trigger] after.at(path) == inserted(before, word, token_id, path),
{
    let b = word[0];
    let rest = word.skip(1);
    assert forall|j: int, k: int| 0 <= j < k < after.children@.len() implies (#[trigger] after.children@[j]).byte < (
    #[trigger] after.children@[k]).byte by {
        assert(before.children@[j].byte < before.children@[k].byte);
    }
    assert forall|path: Seq<u8>| #[trigger] after.at(path) == inserted(before, word, token_id, path) by {
        if path.len() > 0 {
            if path[0] == b {
                lemma_child_index(before.children@, i);
                lemma_child_index(after.children@, i);
                let tail = path.skip(1);
                assert(after.at(path) == after.children@[i].at(tail));
                assert(before.at(path) == before.children@[i].at(tail));
                assert(path =~= seq![b] + tail);
                assert(word =~= seq![b] + rest);
                assert((path == word) == (tail == rest));
                lemma_prefix_step(path, word);
                if path.len() > 1 {
                    assert(path.drop_last().skip(1) =~= tail.drop_last());
                    lemma_prefix_step(path.drop_last(), word);
                    if path.len() <= word.len() {
                        lemma_branches_step(before, word, path.len() - 1, i);
                    }
                } else {
                    assert(path =~= seq![b]);
                    assert(path.is_prefix_of(word));
                }
            } else {
                lemma_insert_elsewhere(before, after, path[0]);
                assert(after.at(path) == before.at(path));
                assert(!path.is_prefix_of(word));
                if before.at(path) is None && path.drop_last().is_prefix_of(word) {
                    assert(path.len() == 1) by {
                        if path.len() > 1 {
                            assert(path.drop_last()[0] == word[0]);
                        }
                    }
                    lemma_root_branches(before);
                    lemma_child_index(before.children@, i);
                    assert(word.take(0) =~= Seq::empty());
                    assert(word.take(1) =~= seq![b]);
                    assert(before.at(word.take(1)) is Some) by {
                        reveal_with_fuel(HashTrie::at, 2);
                    }
                    if branches_with(before, word, 0) > DENSE_LIMIT {
                        assert(before.children@.len() == FULL);
                        lemma_full(before.children@, path[0] as int);
                        lemma_child_index(before.children@, path[0] as int);
                        assert(path.skip(1).len() == 0);
                        reveal_with_fuel(HashTrie::at, 2);
                        assert(false);
                    }
                }
            }
        }
    }
}

/// Prefixes of two strings with the same first byte.
proof fn lemma_prefix_step(path: Seq<u8>, word: Seq<u8>)
    requires
        path.len() > 0,
        word.len() > 0,
        path[0] == word[0],
    ensures
        path.is_prefix_of(word) == path.skip(1).is_prefix_of(word.skip(1)),
{
    if path.is_prefix_of(word) {
        assert(path.skip(1) =~= word.skip(1).subrange(0, path.len() - 1));
    }
    if path.skip(1).is_prefix_of(word.skip(1)) {
        assert forall|k: int| 0 <= k < path.len() implies path[k] == word[k] by {
            if k > 0 {
                assert(path.skip(1)[k - 1] == word.skip(1)[k - 1]);
            }
        }
        assert(path =~= word.subrange(0, path.len() as int));
    }
}

/// The branches along `word` below the first byte are those of the child.
proof fn lemma_branches_step(t: HashTrie, word: Seq<u8>, d: int, i: int)
    requires
        t.wf(),
        0 < d < word.len(),
        0 <= i < t.children@.len(),
        t.children@[i].byte == word[0],
    ensures
        branches_with(t, word, d) == branches_with(t.children@[i], word.skip(1), d - 1),
{
    let c = t.children@[i];
    let rest = word.skip(1);
    lemma_child_index(t.children@, i);
    assert forall|b: u8| branches(t, word.take(d)).contains(b) <==> branches(c, rest.take(d - 1)).contains(b) by {
        assert(word.take(d).push(b).skip(1) =~= rest.take(d - 1).push(b));
    }
    assert(branches(t, word.take(d)) =~= branches(c, rest.take(d - 1)));
    assert(word.take(d + 1).skip(1) =~= rest.take(d));
}

/// Paths that start with another byte than the changed child's are unchanged.
proof fn lemma_insert_elsewhere(before: HashTrie, after: HashTrie, b: u8)
    requires
        sorted(before.children@),
        sorted(after.children@),
        forall|j: int|
            0 <= j < before.children@.len() && before.children@[j].byte == b ==> exists|k: int|
                0 <= k < after.children@.len() && after.children@[k] == #[trigger] before.children@[j],
        forall|k: int|
            0 <= k < after.children@.len() && after.children@[k].byte == b ==> exists|j: int|
                0 <= j < before.children@.len() && #[trigger] after.children@[k] == before.children@[j],
    ensures
        forall|path: Seq<u8>| path.len() > 0 && path[0] == b ==> #[trigger] after.at(path) == before.at(path),
{
    assert forall|path: Seq<u8>| path.len() > 0 && path[0] == b implies #[trigger] after.at(path) == before.at(path) by {
        if let Some(j) = child_index(before.children@, b) {
            lemma_child_found(before.children@, b);
            let k = choose|k: int| 0 <= k < after.children@.len() && after.children@[k] == before.children@[j];
            lemma_child_index(after.children@, k);
        }
        if let Some(k) = child_index(after.children@, b) {
            lemma_child_found(after.children@, b);
            let j = choose|j: int| 0 <= j < before.children@.len() && after.children@[k] == before.children@[j];
            lemma_child_index(before.children@, j);
        }
    }
}

/// A leaf without a token.
pub open spec fn is_blank(t: HashTrie) -> bool {
    t.token_id == NO_TOKEN && t.children@.len() == 0
}

/// Inserting below a new child inserts the whole word, as long as the node need not fan out.
proof fn lemma_insert_child(before: HashTrie, after: HashTrie, word: Seq<u8>, token_id: u32, fresh: HashTrie, i: int)
    requires
        before.wf(),
        word.len() > 0,
        child_index(before.children@, word[0]) is None,
        0 <= i <= before.children@.len(),
        after.token_id == before.token_id,
        after.children@.len() == before.children@.len() + 1,
        sorted(after.children@),
        after.children@ == before.children@.insert(i, after.children@[i]),
        after.children@[i].byte == word[0],
        is_blank(fresh),
        forall|path: Seq<u8>| #[trigger]
            after.children@[i].at(path) == inserted(fresh, word.skip(1), token_id, path),
    ensures
        forall|path: Seq<u8>|
            #![trigger after.at(path)]
            after.at(path) == if path.len() == 1 && path[0] != word[0] {
                before.at(path)
            } else {
                inserted(before, word, token_id, path)
            },
        branches_with(before, word, 0) == after.children@.len(),
{
    let b = word[0];
    let rest = word.skip(1);
    lemma_root_branches(before);
    assert(word.take(0) =~= Seq::empty());
    assert(before.at(word.take(1)) is None);
    assert forall|path: Seq<u8>| path.len() > 0 && path[0] == b implies before.at(path) is None by {}
    assert forall|path: Seq<u8>|
        #![trigger after.at(path)]
        after.at(path) == if path.len() == 1 && path[0] != word[0] {
            before.at(path)
        } else {
            inserted(before, word, token_id, path)
        } by {
        if path.len() > 0 {
            if path[0] == b {
                lemma_child_index(after.children@, i);
                let tail = path.skip(1);
                assert(after.at(path) == after.children@[i].at(tail));
                assert(path =~= seq![b] + tail);
                assert(word =~= seq![b] + rest);
                assert((path == word) == (tail == rest));
                lemma_prefix_step(path, word);
                if path.len() > 1 {
                    assert(path.drop_last().skip(1) =~= tail.drop_last());
                    lemma_prefix_step(path.drop_last(), word);
                    if path.len() <= word.len() {
                        let d = path.len() - 1;
                        assert forall|x: u8| !branches(before, word.take(d)).contains(x) by {
                            assert(word.take(d).push(x)[0] == b);
                        }
                        assert(branches(before, word.take(d)) =~= Set::empty());
                        assert(branches(fresh, rest.take(d - 1)) =~= Set::empty());
                    }
                } else {
                    assert(path =~= seq![b]);
                    assert(path.is_prefix_of(word));
                    assert(tail =~= Seq::empty());
                    assert(rest.len() == 0 ==> rest =~= Seq::empty());
                }
            } else {
                assert forall|j: int| 0 <= j < before.children@.len() implies exists|k: int|
                    0 <= k < after.children@.len() && after.children@[k] == #[trigger] before.children@[j] by {
                    let k = if j < i {
                        j
                    } else {
                        j + 1
                    };
                    assert(after.children@[k] == before.children@[j]);
                }
                assert forall|k: int|
                    0 <= k < after.children@.len() && after.children@[k].byte == path[0] implies exists|j: int|
                    0 <= j < before.children@.len() && #[trigger] after.children@[k] == before.children@[j] by {
                    let j = if k < i {
                        k
                    } else {
                        k - 1
                    };
                    assert(after.children@[k] == before.children@[j]);
                }
                lemma_insert_elsewhere(before, after, path[0]);
                assert(!path.is_prefix_of(word));
                if path.len() > 1 {
                    assert(path.drop_last()[0] == path[0]);
                    assert(!path.drop_last().is_prefix_of(word));
                }
            }
        }
    }
}

impl HashTrie {
    /// A leaf without a token.
    pub fn new(byte: u8) -> (r: Self)
        ensures
            r.wf(),
            r.byte == byte,
            is_blank(r),
    {
        Self { token_id: NO_TOKEN, byte, children: Vec::new() }
    }

    /// Gives every byte that leads to no child a blank one.
    fn fan_out(&mut self)
        requires
            sorted(old(self).children@),
            forall|i: int| 0 <= i < old(self).children@.len() ==> (#[trigger] old(self).children@[i]).wf(),
        ensures
            final(self).wf(),
            final(self).token_id == old(self).token_id,
            final(self).byte == old(self).byte,
            forall|path: Seq<u8>|
                #![trigger final(self).at(path)]
                final(self).at(path) == if path.len() == 1 && old(self).at(path) is None {
                    Some(NO_TOKEN)
                } else {
                    old(self).at(path)
                },
    {
        let ghost before = self.children@;
        let mut b: usize = 0;
        while b < FULL
            invariant
                b <= FULL,
                before == old(self).children@,
                sorted(before),
                sorted(self.children@),
                self.token_id == old(self).token_id,
                self.byte == old(self).byte,
                self.children@.len() >= b,
                forall|k: int| 0 <= k < b ==> (#[trigger] self.children@[k]).byte == k,
                forall|k: int| 0 <= k < self.children@.len() ==> (#[trigger] self.children@[k]).wf(),
                forall|j: int| 0 <= j < before.len() ==> #[trigger] self.children@.contains(before[j]),
                forall|k: int|
                    #![trigger self.children@[k]]
                    0 <= k < self.children@.len() ==> before.contains(self.children@[k]) || (is_blank(
                        self.children@[k],
                    ) && self.children@[k].byte < b && child_index(before, self.children@[k].byte) is None),
            decreases FULL - b,
        {
            let ghost mid = self.children@;
            assert(b < mid.len() ==> mid[b as int].byte >= b) by {
                if b < mid.len() && b > 0 {
                    assert(mid[b - 1].byte < mid[b as int].byte);
                }
            }
            if b >= self.children.len() || self.children[b].byte as usize != b {
                self.children.insert(b, HashTrie::new(b as u8));
                proof {
                    let now = self.children@;
                    assert(child_index(before, b as u8) is None) by {
                        if child_index(before, b as u8) is Some {
                            lemma_child_found(before, b as u8);
                            let j = child_index(before, b as u8)->0;
                            assert(mid.contains(before[j]));
                            let k = choose|k: int| 0 <= k < mid.len() && mid[k] == before[j];
                            if k > b {
                                assert(mid[b as int].byte < mid[k].byte);
                            }
                        }
                    }
                    assert forall|i: int, j: int| 0 <= i < j < now.len() implies (#[trigger] now[i]).byte < (
                    #[trigger] now[j]).byte by {
                        if i == b {
                            assert(now[j] == mid[j - 1]);
                            if j - 1 > b {
                                assert(mid[b as int].byte < mid[j - 1].byte);
                            }
                        } else if j == b {
                            assert(now[i] == mid[i]);
                        } else {
                            let i0 = if i < b { i } else { i - 1 };
                            let j0 = if j < b { j } else { j - 1 };
                            assert(mid[i0].byte < mid[j0].byte);
                        }
                    }
                    assert forall|j: int| 0 <= j < before.len() implies #[trigger] now.contains(before[j]) by {
                        assert(mid.contains(before[j]));
                        let k = choose|k: int| 0 <= k < mid.len() && mid[k] == before[j];
                        assert(now[if k < b { k } else { k + 1 }] == before[j]);
                    }
                    assert forall|k: int|
                        #![trigger now[k]]
                        0 <= k < now.len() implies before.contains(now[k]) || (is_blank(now[k]) && now[k].byte < b + 1
                        && child_index(before, now[k].byte) is None) by {
                        if k != b {
                            let k0 = if k < b { k } else { k - 1 };
                            assert(now[k] == mid[k0]);
                        }
                    }
                    assert forall|k: int| 0 <= k < now.len() implies (#[trigger] now[k]).wf() by {
                        if k != b {
                            let k0 = if k < b { k } else { k - 1 };
                            assert(now[k] == mid[k0]);
                        }
                    }
                }
            }
            b += 1;
        }
        proof {
            let now = self.children@;
            if now.len() > FULL {
                assert(now[255].byte == 255);
                assert(now[255].byte < now[256].byte);
                assert(false);
            }
            assert(now.len() == FULL);
            assert forall|path: Seq<u8>|
                #![trigger self.at(path)]
                self.at(path) == if path.len() == 1 && old(self).at(path) is None {
                    Some(NO_TOKEN)
                } else {
                    old(self).at(path)
                } by {
                if path.len() > 0 {
                    let x = path[0];
                    lemma_child_index(now, x as int);
                    assert(now[x as int].byte == x);
                    if child_index(before, x) is Some {
                        lemma_child_found(before, x);
                        let j = child_index(before, x)->0;
                        assert(now.contains(before[j]));
                        let k = choose|k: int| 0 <= k < now.len() && now[k] == before[j];
                        lemma_child_index(now, k);
                        assert(self.at(path) == old(self).at(path));
                        assert(path.len() == 1 ==> path.skip(1).len() == 0);
                    } else {
                        if before.contains(now[x as int]) {
                            let j = choose|j: int| 0 <= j < before.len() && before[j] == now[x as int];
                            lemma_child_index(before, j);
                        }
                        assert(is_blank(now[x as int]));
                        assert(self.at(path) == now[x as int].at(path.skip(1)));
                        assert(old(self).at(path) is None);
                        if path.len() > 1 {
                            assert(child_index(now[x as int].children@, path.skip(1)[0]) is None);
                        }
                    }
                }
            }
        }
    }

    /// Enters `token_id` under `word`. A token that `word` had is replaced.
    pub fn insert(&mut self, word: &[u8], token_id: u32)
        requires
            old(self).wf(),
        ensures
            final(self).wf(),
            final(self).byte == old(self).byte,
            forall|path: Seq<u8>| #[trigger]
                final(self).at(path) == inserted(*old(self), word@, token_id, path),
            final(self).token_field(word@) == token_id,
            forall|path: Seq<u8>|
                path != word@ ==> #[trigger] final(self).token_field(path) == old(self).token_field(path),
        decreases word@.len(),
    {
        if word.len() == 0 {
            self.token_id = token_id;
            proof {
                assert forall|path: Seq<u8>| #[trigger]
                    self.at(path) == inserted(*old(self), word@, token_id, path) by {
                    if path.len() == 0 {
                        assert(path =~= word@);
                    } else {
                        assert(!path.is_prefix_of(word@));
                    }
                }
            }
            return;
        }
        let b: u8 = word[0];
        let rest: &[u8] = vstd::slice::slice_subrange(word, 1, word.len());
        assert(rest@ =~= word@.skip(1));
        if self.children.len() == FULL {
            proof {
                lemma_full(self.children@, b as int);
            }
            self.children[b as usize].insert(rest, token_id);
            proof {
                lemma_insert_below(*old(self), *self, word@, token_id, b as int);
            }
            return;
        }
        let mut i: usize = 0;
        while i < self.children.len() && self.children[i].byte < b
            invariant
                *self == *old(self),
                i <= self.children@.len(),
                forall|j: int| 0 <= j < i ==> (#[trigger] self.children@[j]).byte < b,
            decreases self.children@.len() - i,
        {
            i += 1;
        }
        if i < self.children.len() && self.children[i].byte == b {
            self.children[i].insert(rest, token_id);
            proof {
                lemma_insert_below(*old(self), *self, word@, token_id, i as int);
            }
            return;
        }
        let mut child: HashTrie = HashTrie::new(b);
        let ghost fresh = child;
        child.insert(rest, token_id);
        self.children.insert(i, child);
        let ghost mid = *self;
        proof {
            let before = old(self).children@;
            assert(child_index(before, b) is None) by {
                if child_index(before, b) is Some {
                    lemma_child_found(before, b);
                    let j = child_index(before, b)->0;
                    if j > i {
                        assert(before[i as int].byte < before[j].byte);
                    }
                }
            }
            assert forall|j: int, k: int| 0 <= j < k < mid.children@.len() implies (#[trigger] mid.children@[j]).byte < (
            #[trigger] mid.children@[k]).byte by {
                if j == i {
                    assert(mid.children@[k] == before[k - 1]);
                    if k - 1 > i {
                        assert(before[i as int].byte < before[k - 1].byte);
                    }
                } else if k == i {
                    assert(mid.children@[j] == before[j]);
                } else {
                    let j0 = if j < i { j } else { j - 1 };
                    let k0 = if k < i { k } else { k - 1 };
                    assert(before[j0].byte < before[k0].byte);
                }
            }
            assert forall|k: int| 0 <= k < mid.children@.len() implies (#[trigger] mid.children@[k]).wf() by {
                if k != i {
                    let k0 = if k < i { k } else { k - 1 };
                    assert(mid.children@[k] == before[k0]);
                }
            }
            assert(mid.children@ =~= before.insert(i as int, mid.children@[i as int]));
            lemma_insert_child(*old(self), mid, word@, token_id, fresh, i as int);
        }
        if self.children.len() > DENSE_LIMIT {
            self.fan_out();
        }
        proof {
            assert forall|path: Seq<u8>| #[trigger]
                self.at(path) == inserted(*old(self), word@, token_id, path) by {
                assert(mid.at(path) == if path.len() == 1 && path[0] != word@[0] {
                    old(self).at(path)
                } else {
                    inserted(*old(self), word@, token_id, path)
                });
                if path.len() == 1 {
                    assert(path.drop_last() =~= Seq::empty());
                    assert(path.drop_last().is_prefix_of(word@));
                    if path[0] != b {
                        assert(!path.is_prefix_of(word@));
                    } else {
                        assert(path =~= word@.subrange(0, 1));
                        assert(path.is_prefix_of(word@));
                    }
                }
            }
        }
    }
}

/// The token field that a node with the token `token` has.
pub open spec fn field_of(token: Option<TokenId>) -> u32 {
    match token {
        Some(t) => t,
        None => NO_TOKEN,
    }
}

/// `t` is the trie of `words`.
pub open spec fn builds(t: HashTrie, words: Seq<Seq<u8>>) -> bool {
    forall|path: Seq<u8>| #[trigger]
        t.at(path) == if is_node(words, path) {
            Some(field_of(last_number(words, path)))
        } else {
            None
        }
}

/// How the branches of the trie of `words` at `path` and the bytes that continue `path` compare.
proof fn lemma_branches_of_words(t: HashTrie, words: Seq<Seq<u8>>, path: Seq<u8>)
    requires
        builds(t, words),
    ensures
        is_dense(words, path) ==> branches(t, path).len() == 256,
        !is_dense(words, path) ==> branches(t, path) == next_bytes(words, path),
{
    assert forall|b: u8| branches(t, path).contains(b) <==> is_prefix(words, path.push(b)) || is_dense(words, path) by {
        assert(path.push(b).drop_last() =~= path);
        assert(is_node(words, path.push(b)) == (is_prefix(words, path.push(b)) || is_dense(words, path)));
    }
    if is_dense(words, path) {
        let all: Seq<u8> = Seq::new(256, |i: int| i as u8);
        all.unique_seq_to_set();
        assert forall|b: u8| all.to_set().contains(b) by {
            assert(all[b as int] == b);
        }
        assert(branches(t, path) =~= all.to_set());
    } else {
        assert(branches(t, path) =~= next_bytes(words, path));
    }
}

/// Inserting the next word into the trie of the words before it gives the trie of them all.
proof fn lemma_insert_word(t: HashTrie, after: HashTrie, words: Seq<Seq<u8>>, word: Seq<u8>, token_id: u32)
    requires
        builds(t, words),
        token_id == words.len(),
        forall|path: Seq<u8>| #[trigger] after.at(path) == inserted(t, word, token_id, path),
    ensures
        builds(after, words.push(word)),
{
    let longer = words.push(word);
    assert forall|path: Seq<u8>| #[trigger]
        after.at(path) == if is_node(longer, path) {
            Some(field_of(last_number(longer, path)))
        } else {
            None
        } by {
        assert(t.at(path) == if is_node(words, path) {
            Some(field_of(last_number(words, path)))
        } else {
            None
        });
        assert(longer.drop_last() =~= words);
        lemma_prefix_push(words, word, path);
        if path.len() > 0 {
            let parent = path.drop_last();
            lemma_dense_push(t, words, word, parent);
            if path == word {
                assert(path.is_prefix_of(word));
            }
            if is_dense(words, parent) {
                assert(is_dense(longer, parent));
            }
            if !is_node(words, path) && !path.is_prefix_of(word) {
                assert(last_number(words, path) is None) by {
                    lemma_no_number(words, path);
                }
                if is_dense(longer, parent) {
                    assert(path.len() <= word.len() && parent.is_prefix_of(word));
                    assert(parent =~= word.take(path.len() - 1));
                }
                if path.len() <= word.len() && parent.is_prefix_of(word) {
                    assert(parent =~= word.take(path.len() - 1));
                }
            }
            if !is_node(words, path) {
                lemma_no_number(words, path);
            }
        }
    }
}

/// A byte string that is no prefix of a word is no word.
proof fn lemma_no_number(words: Seq<Seq<u8>>, path: Seq<u8>)
    requires
        !is_prefix(words, path),
    ensures
        last_number(words, path) is None,
    decreases words.len(),
{
    if words.len() > 0 {
        assert(path.is_prefix_of(path)) by {
            assert(path =~= path.subrange(0, path.len() as int));
        }
        assert(words[words.len() - 1] == words.last());
        assert(!is_prefix(words.drop_last(), path)) by {
            if is_prefix(words.drop_last(), path) {
                let i = choose|i: int|
                    0 <= i < words.drop_last().len() && path.is_prefix_of(#[trigger] words.drop_last()[i]);
                assert(words.drop_last()[i] == words[i]);
            }
        }
        lemma_no_number(words.drop_last(), path);
    }
}

/// A path becomes dense by a new word exactly when its node must fan out on that insertion.
proof fn lemma_dense_push(t: HashTrie, words: Seq<Seq<u8>>, word: Seq<u8>, path: Seq<u8>)
    requires
        builds(t, words),
    ensures
        is_dense(words, path) ==> is_dense(words.push(word), path),
        path.len() < word.len() && path.is_prefix_of(word) ==> is_dense(words.push(word), path) == (branches_with(
            t,
            word,
            path.len() as int,
        ) > DENSE_LIMIT),
        !(path.len() < word.len() && path.is_prefix_of(word)) ==> is_dense(words.push(word), path) == is_dense(
            words,
            path,
        ),
{
    let longer = words.push(word);
    let before = next_bytes(words, path);
    let after = next_bytes(longer, path);
    lemma_byte_set(before);
    lemma_byte_set(after);
    lemma_branches_of_words(t, words, path);
    assert forall|b: u8| after.contains(b) <==> before.contains(b) || path.push(b).is_prefix_of(word) by {
        lemma_prefix_push(words, word, path.push(b));
    }
    assert(before.subset_of(after));
    vstd::set_lib::lemma_len_subset(before, after);
    if path.len() < word.len() && path.is_prefix_of(word) {
        let d = path.len() as int;
        let x = word[d];
        assert(path =~= word.take(d));
        assert(path.push(x) =~= word.take(d + 1));
        assert(path.push(x) =~= word.subrange(0, d + 1));
        assert forall|b: u8| path.push(b).is_prefix_of(word) <==> b == x by {
            if path.push(b).is_prefix_of(word) {
                assert(path.push(b)[d] == word.subrange(0, d + 1)[d]);
            }
        }
        assert(after =~= before.insert(x));
        assert(path.push(x).drop_last() =~= path);
        assert(t.at(path.push(x)) is Some == is_node(words, path.push(x)));
        assert(is_node(words, path.push(x)) == (before.contains(x) || is_dense(words, path)));
    } else {
        assert forall|b: u8| !path.push(b).is_prefix_of(word) by {
            if path.push(b).is_prefix_of(word) {
                assert(path =~= word.subrange(0, path.len() as int));
            }
        }
        assert(after =~= before);
    }
}

impl HashTrie {
    /// The trie of a list of words. The token of word number `i` is `i`; where a word is repeated,
    /// the last number counts.
    pub fn of_words(words: &Vec<Vec<u8>>) -> (r: Self)
        requires
            words@.len() <= NO_TOKEN,
        ensures
            r.wf(),
            r.byte == 0xFF,
            builds(r, word_list(words@)),
    {
        let mut builder: HashTrie = HashTrie::new(0xFF);
        let ghost list = word_list(words@);
        proof {
            assert forall|path: Seq<u8>| #[trigger]
                builder.at(path) == if is_node(list.take(0), path) {
                    Some(field_of(last_number(list.take(0), path)))
                } else {
                    None
                } by {
                if path.len() > 0 {
                    assert(next_bytes(list.take(0), path.drop_last()) =~= Set::empty());
                }
            }
        }
        let mut id: usize = 0;
        while id < words.len()
            invariant
                words@.len() <= NO_TOKEN,
                list == word_list(words@),
                builder.byte == 0xFF,
                id <= words@.len(),
                builder.wf(),
                builds(builder, list.take(id as int)),
            decreases words@.len() - id,
        {
            let ghost before = builder;
            builder.insert(words[id].as_slice(), id as u32);
            proof {
                lemma_insert_word(before, builder, list.take(id as int), list[id as int], id as u32);
                assert(list.take(id as int).push(list[id as int]) =~= list.take(id + 1));
            }
            id += 1;
        }
        assert(list.take(id as int) =~= list);
        builder
    }
}

} // verus!
