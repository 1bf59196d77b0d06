//! Laying a trie with growing nodes out flat.
use vstd::prelude::*;

use crate::vocabulary::builder::{builds, child_index, field_of, lemma_child_found, lemma_child_index, sorted, HashTrie};
use crate::vocabulary::flat::{contents, find, forest, well_formed};
use crate::vocabulary::node::{TrieNode, NO_TOKEN, SIZE_LIMIT};
use crate::vocabulary::words::{encodable, is_last_child, is_node, last_number, levels_up, trie_nodes};

verus! {

/// The number of nodes of the root and its first `i` children's subtrees.
pub open spec fn size_upto(t: HashTrie, i: int) -> nat
    decreases t, i,
{
    if 0 < i <= t.children@.len() {
        let child = t.children@[i - 1];
        size_upto(t, i - 1) + size_upto(child, child.children@.len() as int)
    } else {
        1
    }
}

/// The number of nodes.
pub open spec fn tree_size(t: HashTrie) -> nat {
    size_upto(t, t.children@.len() as int)
}

/// How far up the walk goes behind the subtree of child `i` of a node with `len` children, if it
/// goes `ups` levels up behind the node's own subtree.
pub open spec fn child_ups(ups: nat, i: int, len: int) -> nat {
    if i == len - 1 {
        ups + 1
    } else {
        1
    }
}

/// Every count of levels fits its 8 bits.
pub open spec fn ups_fit(t: HashTrie, ups: nat) -> bool
    decreases t,
{
    &&& ups <= 0xFF
    &&& forall|i: int|
        0 <= i < t.children@.len() ==> ups_fit(
            #[trigger] t.children@[i],
            child_ups(ups, i, t.children@.len() as int),
        )
}

/// Every token field fits its 24 bits.
pub open spec fn tokens_fit(t: HashTrie) -> bool {
    forall|path: Seq<u8>| (#[trigger] t.at(path)) matches Some(raw) ==> raw <= NO_TOKEN
}

/// What the forest from `p` to `end` says of `path`.
pub open spec fn field_at(nodes: Seq<TrieNode>, p: int, end: int, path: Seq<u8>) -> Option<u32> {
    match find(nodes, p, end, path) {
        Some(q) => Some(nodes[q].raw_token()),
        None => None,
    }
}

/// The subtree at `here` is `t`, laid out.
pub open spec fn lays_out(nodes: Seq<TrieNode>, here: int, t: HashTrie, ups: nat) -> bool {
    let end = here + tree_size(t);
    &&& 0 <= here
    &&& end <= nodes.len()
    &&& nodes[here].label() == t.byte
    &&& nodes[here].raw_token() == t.token_id
    &&& nodes[here].size() == tree_size(t)
    &&& nodes[here].ups() == ups
    &&& forest(nodes, here + 1, end, ups + 1)
    &&& forall|path: Seq<u8>|
        path.len() > 0 ==> #[trigger] field_at(nodes, here + 1, end, path) == t.at(path)
}

/// What the first `i` children's subtrees say of `path`.
pub open spec fn at_upto(t: HashTrie, i: int, path: Seq<u8>) -> Option<u32> {
    match child_index(t.children@, path[0]) {
        Some(j) => if j < i {
            t.children@[j].at(path.skip(1))
        } else {
            None
        },
        None => None,
    }
}

/// The bytes of the sibling roots from `p` to `end` are below `b`.
spec fn labels_below(nodes: Seq<TrieNode>, p: int, end: int, b: u8) -> bool
    decreases end - p,
{
    let q = p + nodes[p].size();
    if 0 <= p < q <= end {
        nodes[p].label() < b && labels_below(nodes, q, end, b)
    } else {
        true
    }
}

/// A forest depends on its own nodes alone.
proof fn lemma_frame(nodes: Seq<TrieNode>, other: Seq<TrieNode>, p: int, end: int, ups: nat)
    requires
        forest(nodes, p, end, ups),
        end <= other.len(),
        forall|i: int| p <= i < end ==> nodes[i] == other[i],
    ensures
        forest(other, p, end, ups),
        forall|b: u8| labels_below(nodes, p, end, b) ==> #[trigger] labels_below(other, p, end, b),
        forall|path: Seq<u8>| #[trigger] field_at(other, p, end, path) == field_at(nodes, p, end, path),
    decreases end - p,
{
    lemma_frame_forest(nodes, other, p, end, ups);
    assert forall|b: u8| labels_below(nodes, p, end, b) implies #[trigger] labels_below(other, p, end, b) by {
        lemma_frame_labels(nodes, other, p, end, ups, b);
    }
    assert forall|path: Seq<u8>| #[trigger] field_at(other, p, end, path) == field_at(nodes, p, end, path) by {
        lemma_frame_find(nodes, other, p, end, ups, path);
    }
}

proof fn lemma_frame_forest(nodes: Seq<TrieNode>, other: Seq<TrieNode>, p: int, end: int, ups: nat)
    requires
        forest(nodes, p, end, ups),
        end <= other.len(),
        forall|i: int| p <= i < end ==> nodes[i] == other[i],
    ensures
        forest(other, p, end, ups),
    decreases end - p,
{
    if p < end {
        let q = p + nodes[p].size();
        lemma_frame_forest(nodes, other, p + 1, q, (nodes[p].ups() + 1) as nat);
        lemma_frame_forest(nodes, other, q, end, ups);
    }
}

proof fn lemma_frame_labels(nodes: Seq<TrieNode>, other: Seq<TrieNode>, p: int, end: int, ups: nat, b: u8)
    requires
        forest(nodes, p, end, ups),
        end <= other.len(),
        forall|i: int| p <= i < end ==> nodes[i] == other[i],
        labels_below(nodes, p, end, b),
    ensures
        labels_below(other, p, end, b),
    decreases end - p,
{
    if p < end {
        let q = p + nodes[p].size();
        lemma_frame_labels(nodes, other, q, end, ups, b);
    }
}

proof fn lemma_frame_find(nodes: Seq<TrieNode>, other: Seq<TrieNode>, p: int, end: int, ups: nat, path: Seq<u8>)
    requires
        forest(nodes, p, end, ups),
        end <= other.len(),
        forall|i: int| p <= i < end ==> nodes[i] == other[i],
    ensures
        find(other, p, end, path) == find(nodes, p, end, path),
        field_at(other, p, end, path) == field_at(nodes, p, end, path),
    decreases end - p,
{
    if p < end {
        let q = p + nodes[p].size();
        lemma_frame_find(nodes, other, p + 1, q, (nodes[p].ups() + 1) as nat, path.skip(1));
        lemma_frame_find(nodes, other, q, end, ups, path);
        if find(nodes, p, end, path) is Some {
            crate::vocabulary::flat::lemma_found_spells(nodes, p, end, ups, path);
        }
    }
}

/// A subtree with a greater byte can be appended to a forest.
proof fn lemma_append(nodes: Seq<TrieNode>, p: int, mid: int, end: int, ups: nat)
    requires
        forest(nodes, p, mid, 1),
        mid < end <= nodes.len(),
        nodes[mid].size() == end - mid,
        nodes[mid].ups() == ups,
        forest(nodes, mid + 1, end, ups + 1),
        labels_below(nodes, p, mid, nodes[mid].label()),
    ensures
        forest(nodes, p, end, ups),
        forall|b: u8| nodes[mid].label() < b ==> #[trigger] labels_below(nodes, p, end, b),
        forall|path: Seq<u8>|
            path.len() > 0 ==> #[trigger] find(nodes, p, end, path) == if path[0] == nodes[mid].label() {
                if path.len() == 1 {
                    Some(mid)
                } else {
                    find(nodes, mid + 1, end, path.skip(1))
                }
            } else {
                find(nodes, p, mid, path)
            },
    decreases mid - p,
{
    reveal_with_fuel(forest, 2);
    reveal_with_fuel(labels_below, 2);
    reveal_with_fuel(find, 2);
    if p < mid {
        let q = p + nodes[p].size();
        lemma_append(nodes, q, mid, end, ups);
        assert forall|b: u8| nodes[mid].label() < b implies #[trigger] labels_below(nodes, p, end, b) by {
            assert(labels_below(nodes, q, end, b));
        }
        assert forall|path: Seq<u8>|
            path.len() > 0 implies #[trigger] find(nodes, p, end, path) == if path[0] == nodes[mid].label() {
            if path.len() == 1 {
                Some(mid)
            } else {
                find(nodes, mid + 1, end, path.skip(1))
            }
        } else {
            find(nodes, p, mid, path)
        } by {
            assert(find(nodes, q, end, path) == if path[0] == nodes[mid].label() {
                if path.len() == 1 {
                    Some(mid)
                } else {
                    find(nodes, mid + 1, end, path.skip(1))
                }
            } else {
                find(nodes, q, mid, path)
            });
        }
    }
}

proof fn lemma_size_grows(t: HashTrie, i: int, j: int)
    requires
        0 <= i <= j <= t.children@.len(),
    ensures
        1 <= size_upto(t, i) <= size_upto(t, j),
        i < j ==> size_upto(t, i) < size_upto(t, j),
    decreases t, j,
{
    if i < j {
        lemma_size_grows(t, i, j - 1);
        let child = t.children@[j - 1];
        lemma_size_grows(child, 0, child.children@.len() as int);
    } else if i > 0 {
        lemma_size_grows(t, i - 1, j - 1);
        let child = t.children@[j - 1];
        lemma_size_grows(child, 0, child.children@.len() as int);
    }
}

/// The token fields of a child fit when all fit.
proof fn lemma_tokens_fit_below(t: HashTrie, i: int)
    requires
        sorted(t.children@),
        tokens_fit(t),
        0 <= i < t.children@.len(),
    ensures
        tokens_fit(t.children@[i]),
{
    let child = t.children@[i];
    lemma_child_index(t.children@, i);
    assert forall|path: Seq<u8>| (#[trigger] child.at(path)) matches Some(raw) ==> raw <= NO_TOKEN by {
        let longer = seq![child.byte] + path;
        assert(longer.skip(1) =~= path);
        assert(t.at(longer) == child.at(path));
    }
}

impl HashTrie {
    /// Appends the nodes, with subtree sizes and parent counts. The last child of a node gets one
    /// level more to go up than the node, so that a walk behind it comes up to where it goes on.
    pub fn serialize(&self, out: &mut Vec<TrieNode>, num_parents: u8)
        requires
            self.wf(),
            ups_fit(*self, num_parents as nat),
            tokens_fit(*self),
            tree_size(*self) < SIZE_LIMIT,
            old(out)@.len() + tree_size(*self) <= usize::MAX,
        ensures
            final(out)@.len() == old(out)@.len() + tree_size(*self),
            forall|i: int| 0 <= i < old(out)@.len() ==> final(out)@[i] == #[trigger] old(out)@[i],
            lays_out(final(out)@, old(out)@.len() as int, *self, num_parents as nat),
        decreases self,
    {
        let here: usize = out.len();
        out.push(TrieNode::new(self.byte, self.token_id, num_parents));
        let len: usize = self.children.len();
        let ghost ups = num_parents as nat;
        proof {
            let raw = self.token_id;
            assert(self.at(Seq::empty()) == Some(raw));
            assert(raw <= 0xFF_FFFF ==> raw & 0xFF_FFFF == raw) by (bit_vector);
        }
        let mut i: usize = 0;
        while i < len
            invariant
                self.wf(),
                ups == num_parents,
                ups_fit(*self, ups),
                tokens_fit(*self),
                tree_size(*self) < SIZE_LIMIT,
                old(out)@.len() + tree_size(*self) <= usize::MAX,
                here == old(out)@.len(),
                len == self.children@.len(),
                i <= len,
                out@.len() == here + size_upto(*self, i as int),
                forall|k: int| 0 <= k < here ==> out@[k] == #[trigger] old(out)@[k],
                out@[here as int].label() == self.byte,
                out@[here as int].raw_token() == self.token_id,
                out@[here as int].size() == 0,
                out@[here as int].ups() == ups,
                forest(
                    out@,
                    here + 1,
                    out@.len() as int,
                    if i == len {
                        (ups + 1) as nat
                    } else {
                        1
                    },
                ),
                i < len ==> labels_below(out@, here + 1, out@.len() as int, self.children@[i as int].byte),
                forall|path: Seq<u8>|
                    path.len() > 0 ==> #[trigger] field_at(out@, here + 1, out@.len() as int, path) == at_upto(
                        *self,
                        i as int,
                        path,
                    ),
            decreases len - i,
        {
            let ghost before = out@;
            let ghost mid = out@.len() as int;
            let ghost child = self.children@[i as int];
            let np: u8 = if i == len - 1 {
                assert(ups_fit(child, child_ups(ups, i as int, len as int)));
                num_parents + 1
            } else {
                1
            };
            proof {
                lemma_tokens_fit_below(*self, i as int);
                assert(ups_fit(child, child_ups(ups, i as int, len as int)));
                lemma_size_grows(*self, i + 1, len as int);
                assert(child.wf());
            }
            self.children[i].serialize(out, np);
            proof {
                let end = out@.len() as int;
                assert forall|k: int| 0 <= k < mid implies before[k] == #[trigger] out@[k] by {}
                lemma_frame(before, out@, here + 1, mid, 1);
                lemma_append(out@, here + 1, mid, end, np as nat);
                if i + 1 < len {
                    assert(self.children@[i as int].byte < self.children@[i + 1].byte);
                    assert(labels_below(out@, here + 1, end, self.children@[i + 1].byte));
                }
                assert forall|path: Seq<u8>|
                    path.len() > 0 implies #[trigger] field_at(out@, here + 1, end, path) == at_upto(
                    *self,
                    i + 1,
                    path,
                ) by {
                    assert(field_at(out@, here + 1, mid, path) == field_at(before, here + 1, mid, path));
                    assert(field_at(before, here + 1, mid, path) == at_upto(*self, i as int, path));
                    lemma_child_index(self.children@, i as int);
                    if path[0] == child.byte {
                        if path.len() > 1 {
                            assert(field_at(out@, mid + 1, end, path.skip(1)) == child.at(path.skip(1)));
                        }
                    } else if child_index(self.children@, path[0]) is Some {
                        lemma_child_found(self.children@, path[0]);
                    }
                }
            }
            i += 1;
        }
        proof {
            lemma_size_grows(*self, 0, len as int);
        }
        let ghost before = out@;
        let subtree: u32 = (out.len() - here) as u32;
        out[here].set_subtree_size(subtree);
        proof {
            let end = out@.len() as int;
            lemma_frame(before, out@, here + 1, end, ups + 1);
            assert forall|path: Seq<u8>|
                path.len() > 0 implies #[trigger] field_at(out@, here + 1, end, path) == self.at(path) by {
                assert(field_at(out@, here + 1, end, path) == field_at(before, here + 1, end, path));
                if child_index(self.children@, path[0]) is Some {
                    lemma_child_found(self.children@, path[0]);
                }
            }
        }
    }

    /// The number of nodes, if it is not above `limit`.
    pub fn size_within(&self, limit: usize) -> (r: Option<usize>)
        ensures
            r == if tree_size(*self) <= limit {
                Some(tree_size(*self) as usize)
            } else {
                None
            },
        decreases self,
    {
        if limit == 0 {
            proof {
                lemma_size_grows(*self, 0, self.children@.len() as int);
            }
            return None;
        }
        let mut n: usize = 1;
        let mut i: usize = 0;
        while i < self.children.len()
            invariant
                i <= self.children@.len(),
                n == size_upto(*self, i as int),
                n <= limit,
            decreases self.children@.len() - i,
        {
            proof {
                lemma_size_grows(*self, i + 1, self.children@.len() as int);
            }
            match self.children[i].size_within(limit - n) {
                Some(m) => {
                    n += m;
                },
                None => {
                    return None;
                },
            }
            i += 1;
        }
        Some(n)
    }

    /// Do all counts of levels fit their bits?
    pub fn parents_fit(&self, num_parents: u8) -> (r: bool)
        ensures
            r == ups_fit(*self, num_parents as nat),
        decreases self,
    {
        let ghost ups = num_parents as nat;
        let len: usize = self.children.len();
        let mut i: usize = 0;
        while i < len
            invariant
                ups == num_parents,
                len == self.children@.len(),
                i <= len,
                forall|k: int|
                    0 <= k < i ==> ups_fit(#[trigger] self.children@[k], child_ups(ups, k, len as int)),
            decreases len - i,
        {
            let np: u8 = if i == len - 1 {
                if num_parents == 0xFF {
                    assert(!ups_fit(self.children@[i as int], child_ups(ups, i as int, len as int)));
                    return false;
                }
                num_parents + 1
            } else {
                1
            };
            if !self.children[i].parents_fit(np) {
                assert(!ups_fit(self.children@[i as int], child_ups(ups, i as int, len as int)));
                return false;
            }
            i += 1;
        }
        true
    }
}

/// The byte strings that lead to a node.
pub open spec fn node_paths(t: HashTrie) -> Set<Seq<u8>> {
    Set::new(|path: Seq<u8>| t.at(path) is Some)
}

/// The byte strings that lead to the root or into the first `i` children's subtrees.
spec fn paths_upto(t: HashTrie, i: int) -> Set<Seq<u8>> {
    Set::new(|path: Seq<u8>| path.len() == 0 || at_upto(t, i, path) is Some)
}

/// There are as many nodes as byte strings that lead to one.
pub proof fn lemma_count_paths(t: HashTrie)
    requires
        t.wf(),
    ensures
        node_paths(t).finite(),
        node_paths(t).len() == tree_size(t),
    decreases t, t.children@.len() + 1,
{
    lemma_count_paths_upto(t, t.children@.len() as int);
    assert forall|path: Seq<u8>| node_paths(t).contains(path) <==> paths_upto(t, t.children@.len() as int).contains(path) by {
        if path.len() > 0 && child_index(t.children@, path[0]) is Some {
            lemma_child_found(t.children@, path[0]);
        }
    }
    assert(node_paths(t) =~= paths_upto(t, t.children@.len() as int));
}

proof fn lemma_count_paths_upto(t: HashTrie, i: int)
    requires
        t.wf(),
        0 <= i <= t.children@.len(),
    ensures
        paths_upto(t, i).finite(),
        paths_upto(t, i).len() == size_upto(t, i),
    decreases t, i,
{
    if i == 0 {
        let only = Set::<Seq<u8>>::empty().insert(Seq::empty());
        assert forall|path: Seq<u8>| paths_upto(t, 0).contains(path) <==> only.contains(path) by {
            if path.len() == 0 {
                assert(path =~= Seq::empty());
            } else if child_index(t.children@, path[0]) is Some {
                lemma_child_found(t.children@, path[0]);
            }
        }
        assert(paths_upto(t, 0) =~= only);
    } else {
        let child = t.children@[i - 1];
        assert(child.wf());
        lemma_count_paths_upto(t, i - 1);
        lemma_count_paths(child);
        lemma_child_index(t.children@, i - 1);
        let below = |path: Seq<u8>| seq![child.byte] + path;
        let added = node_paths(child).map(below);
        assert(vstd::relations::injective_on(below, node_paths(child))) by {
            assert forall|x: Seq<u8>, y: Seq<u8>|
                #![trigger below(x), below(y)]
                node_paths(child).contains(x) && node_paths(child).contains(y) && below(x) == below(y) implies x == y by {
                assert(below(x).skip(1) =~= x);
                assert(below(y).skip(1) =~= y);
            }
        }
        vstd::set_lib::lemma_map_size(node_paths(child), added, below);
        let before = paths_upto(t, i - 1);
        assert forall|path: Seq<u8>| added.contains(path) <==> path.len() > 0 && path[0] == child.byte && child.at(
            path.skip(1),
        ) is Some by {
            if added.contains(path) {
                let x = choose|x: Seq<u8>| node_paths(child).contains(x) && path == below(x);
                assert(path.skip(1) =~= x);
            }
            if path.len() > 0 && path[0] == child.byte && child.at(path.skip(1)) is Some {
                assert(path =~= below(path.skip(1)));
                assert(node_paths(child).contains(path.skip(1)));
            }
        }
        assert(before.disjoint(added)) by {
            assert forall|path: Seq<u8>| !(before.contains(path) && added.contains(path)) by {}
        }
        vstd::set_lib::lemma_set_disjoint_lens(before, added);
        assert forall|path: Seq<u8>| paths_upto(t, i).contains(path) <==> (before + added).contains(path) by {
            if path.len() > 0 {
                if path[0] == child.byte {
                } else if child_index(t.children@, path[0]) is Some {
                    lemma_child_found(t.children@, path[0]);
                }
            }
        }
        assert(paths_upto(t, i) =~= before + added);
    }
}

/// The subtree `t` stands at `base` in a trie with nodes at `paths`.
spec fn stands_at(t: HashTrie, base: Seq<u8>, paths: Set<Seq<u8>>) -> bool {
    forall|path: Seq<u8>| t.at(path) is Some <==> #[trigger] paths.contains(base + path)
}

/// Where the children of a subtree stand, and how far up it goes behind them.
proof fn lemma_child_stands(t: HashTrie, base: Seq<u8>, paths: Set<Seq<u8>>, i: int)
    requires
        t.wf(),
        stands_at(t, base, paths),
        0 <= i < t.children@.len(),
    ensures
        stands_at(t.children@[i], base.push(t.children@[i].byte), paths),
        paths.contains(base.push(t.children@[i].byte)),
        levels_up(paths, base.push(t.children@[i].byte)) == child_ups(
            levels_up(paths, base),
            i,
            t.children@.len() as int,
        ),
{
    let child = t.children@[i];
    let down = base.push(child.byte);
    lemma_child_index(t.children@, i);
    assert forall|path: Seq<u8>| child.at(path) is Some <==> #[trigger] paths.contains(down + path) by {
        let longer = seq![child.byte] + path;
        assert(longer.skip(1) =~= path);
        assert(t.at(longer) == child.at(path));
        assert(base + longer =~= down + path);
        assert(paths.contains(base + longer) == paths.contains(down + path));
    }
    assert(child.at(Seq::empty()) is Some);
    assert(down + Seq::<u8>::empty() =~= down);
    assert(paths.contains(down + Seq::<u8>::empty()));
    assert(down.drop_last() =~= base);
    assert forall|b: u8| #[trigger] paths.contains(base.push(b)) <==> child_index(t.children@, b) is Some by {
        let step = seq![b];
        assert(base + step =~= base.push(b));
        assert(paths.contains(base + step) <==> t.at(step) is Some);
        if child_index(t.children@, b) is Some {
            assert(step.skip(1) =~= Seq::empty());
            assert(t.children@[child_index(t.children@, b)->0].at(step.skip(1)) is Some);
        }
    }
    if i == t.children@.len() - 1 {
        assert forall|b: u8| b > down.last() implies !#[trigger] paths.contains(down.drop_last().push(b)) by {
            if child_index(t.children@, b) is Some {
                lemma_child_found(t.children@, b);
                let j = child_index(t.children@, b)->0;
                if j < i {
                    assert(t.children@[j].byte < t.children@[i].byte);
                }
            }
        }
    } else {
        let next = t.children@[i + 1];
        assert(child.byte < next.byte);
        lemma_child_index(t.children@, i + 1);
        assert(paths.contains(base.push(next.byte)));
        assert(down.drop_last().push(next.byte) == base.push(next.byte));
        assert(!is_last_child(paths, down));
    }
}

/// Counts of levels fit in a trie exactly when they do in its layout.
proof fn lemma_levels_fit(t: HashTrie, base: Seq<u8>, paths: Set<Seq<u8>>)
    requires
        t.wf(),
        stands_at(t, base, paths),
    ensures
        ups_fit(t, levels_up(paths, base)) == (forall|path: Seq<u8>|
            t.at(path) is Some ==> levels_up(paths, #[trigger] (base + path)) <= 0xFF),
    decreases t,
{
    let ups = levels_up(paths, base);
    let all_fit = forall|path: Seq<u8>|
        t.at(path) is Some ==> levels_up(paths, #[trigger] (base + path)) <= 0xFF;
    assert(base + Seq::<u8>::empty() =~= base);
    assert forall|i: int| 0 <= i < t.children@.len() implies {
        let child = #[trigger] t.children@[i];
        ups_fit(child, child_ups(ups, i, t.children@.len() as int)) == forall|path: Seq<u8>|
            child.at(path) is Some ==> levels_up(paths, #[trigger] (base.push(child.byte) + path)) <= 0xFF
    } by {
        let child = t.children@[i];
        assert(child.wf());
        lemma_child_stands(t, base, paths, i);
        lemma_levels_fit(child, base.push(child.byte), paths);
    }
    if all_fit {
        assert(t.at(Seq::empty()) is Some);
        assert(levels_up(paths, base + Seq::<u8>::empty()) <= 0xFF);
        assert forall|i: int| 0 <= i < t.children@.len() implies ups_fit(
            #[trigger] t.children@[i],
            child_ups(ups, i, t.children@.len() as int),
        ) by {
            let child = t.children@[i];
            lemma_child_index(t.children@, i);
            assert forall|path: Seq<u8>| child.at(path) is Some implies levels_up(
                paths,
                #[trigger] (base.push(child.byte) + path),
            ) <= 0xFF by {
                let longer = seq![child.byte] + path;
                assert(longer.skip(1) =~= path);
                assert(t.at(longer) is Some);
                assert(base + longer =~= base.push(child.byte) + path);
                assert(levels_up(paths, base + longer) <= 0xFF);
            }
        }
    }
    if ups_fit(t, ups) {
        assert forall|path: Seq<u8>| t.at(path) is Some implies levels_up(paths, #[trigger] (base + path)) <= 0xFF by {
            if path.len() == 0 {
                assert(base + path =~= base);
            } else {
                lemma_child_found(t.children@, path[0]);
                let i = child_index(t.children@, path[0])->0;
                let child = t.children@[i];
                assert(ups_fit(child, child_ups(ups, i, t.children@.len() as int)));
                assert(base + path =~= base.push(child.byte) + path.skip(1));
                assert(levels_up(paths, base.push(child.byte) + path.skip(1)) <= 0xFF);
            }
        }
    }
}

/// The trie of a list of words fits its layout exactly when the list is encodable.
pub proof fn lemma_encodable(t: HashTrie, words: Seq<Seq<u8>>)
    requires
        t.wf(),
        builds(t, words),
        words.len() <= NO_TOKEN,
    ensures
        encodable(words) == (tree_size(t) < SIZE_LIMIT && ups_fit(t, 0)),
{
    let paths = trie_nodes(words).dom();
    lemma_count_paths(t);
    assert forall|path: Seq<u8>| paths.contains(path) <==> t.at(path) is Some by {}
    assert(node_paths(t) =~= paths);
    assert(stands_at(t, Seq::empty(), paths)) by {
        assert forall|path: Seq<u8>| t.at(path) is Some <==> #[trigger] paths.contains(Seq::<u8>::empty() + path) by {
            assert(Seq::<u8>::empty() + path =~= path);
        }
    }
    lemma_levels_fit(t, Seq::empty(), paths);
    let all_fit = forall|path: Seq<u8>|
        t.at(path) is Some ==> levels_up(paths, #[trigger] (Seq::<u8>::empty() + path)) <= 0xFF;
    if all_fit {
        assert forall|path: Seq<u8>| #[trigger] paths.contains(path) implies levels_up(paths, path) <= 0xFF by {
            assert(Seq::<u8>::empty() + path =~= path);
            assert(levels_up(paths, Seq::<u8>::empty() + path) <= 0xFF);
        }
    }
    if encodable(words) {
        assert forall|path: Seq<u8>| t.at(path) is Some implies levels_up(
            paths,
            #[trigger] (Seq::<u8>::empty() + path),
        ) <= 0xFF by {
            assert(Seq::<u8>::empty() + path =~= path);
            assert(paths.contains(path));
        }
    }
}

/// The layout of the trie of a list of words holds the nodes of that trie.
pub proof fn lemma_layout(nodes: Seq<TrieNode>, t: HashTrie, words: Seq<Seq<u8>>)
    requires
        builds(t, words),
        t.byte == 0xFF,
        words.len() <= NO_TOKEN,
        lays_out(nodes, 0, t, 0),
        nodes.len() == tree_size(t),
        0 < nodes.len() < SIZE_LIMIT,
    ensures
        well_formed(nodes),
        contents(nodes) == trie_nodes(words),
{
    assert forall|path: Seq<u8>|
        #![trigger contents(nodes).contains_key(path)]
        #![trigger trie_nodes(words).contains_key(path)]
        contents(nodes).contains_key(path) == trie_nodes(words).contains_key(path) && (contents(nodes).contains_key(path)
            ==> contents(nodes)[path] == trie_nodes(words)[path]) by {
        assert(t.at(path) == if is_node(words, path) {
            Some(field_of(last_number(words, path)))
        } else {
            None
        });
        if path.len() > 0 {
            assert(field_at(nodes, 1, nodes.len() as int, path) == t.at(path));
        }
        crate::vocabulary::words::lemma_last_number(words, path);
    }
    assert(contents(nodes) =~= trie_nodes(words));
}

} // verus!
