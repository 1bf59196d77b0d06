//! Children of trie nodes, grouped by the equivalence class of their bytes.
use vstd::prelude::*;

use crate::vocabulary::flat::{forest, lemma_node, siblings};
use crate::vocabulary::node::TrieNode;
use crate::vocabulary::trie::{NodeRef, Trie};

verus! {

/// A group of sibling nodes: the offset of the first one, the offset behind the last one's
/// subtree, and the class of their bytes.
pub type Group = (int, int, u8);

/// The offset of the first sibling from `p` on whose byte is not of class `class`, or `end`.
pub open spec fn run_end(nodes: Seq<TrieNode>, p: int, end: int, classes: Seq<u8>, class: u8) -> int
    decreases end - p,
{
    let q = p + nodes[p].size();
    if 0 <= p < q <= end && classes[nodes[p].label() as int] == class {
        run_end(nodes, q, end, classes, class)
    } else {
        p
    }
}

/// The siblings from `p` to `end`, cut where the class of their bytes changes.
pub open spec fn runs(nodes: Seq<TrieNode>, p: int, end: int, classes: Seq<u8>) -> Seq<Group>
    decreases end - p,
{
    let class = classes[nodes[p].label() as int];
    let q = run_end(nodes, p, end, classes, class);
    if 0 <= p < q <= end {
        seq![(p, q, class)] + runs(nodes, q, end, classes)
    } else {
        Seq::empty()
    }
}

/// A run ends at a sibling, whose byte is of another class, or behind all of them.
proof fn lemma_run(nodes: Seq<TrieNode>, p: int, end: int, ups: nat, classes: Seq<u8>, class: u8)
    requires
        forest(nodes, p, end, ups),
    ensures
        p <= run_end(nodes, p, end, classes, class) <= end,
        forest(nodes, run_end(nodes, p, end, classes, class), end, ups),
        p < end && classes[nodes[p].label() as int] == class ==> p < run_end(nodes, p, end, classes, class),
        ({
            let q = run_end(nodes, p, end, classes, class);
            q < end ==> classes[nodes[q].label() as int] != class
        }),
        forall|i: int|
            0 <= i < siblings(nodes, p, run_end(nodes, p, end, classes, class)).len()
                ==> classes[nodes[#[trigger] siblings(nodes, p, run_end(nodes, p, end, classes, class))[i]].label() as int]
                == class,
    decreases end - p,
{
    let q = p + nodes[p].size();
    if p < end && classes[nodes[p].label() as int] == class {
        lemma_run(nodes, q, end, ups, classes, class);
        let e = run_end(nodes, q, end, classes, class);
        assert(siblings(nodes, p, e) == seq![p] + siblings(nodes, q, e));
        assert forall|i: int| 0 <= i < siblings(nodes, p, e).len() implies classes[nodes[#[trigger] siblings(
            nodes,
            p,
            e,
        )[i]].label() as int] == class by {
            if i > 0 {
                assert(siblings(nodes, p, e)[i] == siblings(nodes, q, e)[i - 1]);
            }
        }
    }
}

/// The siblings behind a run are siblings of those in it.
proof fn lemma_run_siblings(
    nodes: Seq<TrieNode>,
    p: int,
    end: int,
    ups: nat,
    classes: Seq<u8>,
    class: u8,
    t: int,
)
    requires
        forest(nodes, p, end, ups),
        siblings(nodes, run_end(nodes, p, end, classes, class), end).contains(t),
    ensures
        siblings(nodes, p, end).contains(t),
    decreases end - p,
{
    let q = p + nodes[p].size();
    if p < end && classes[nodes[p].label() as int] == class {
        lemma_run_siblings(nodes, q, end, ups, classes, class, t);
        let rest = siblings(nodes, q, end);
        let i = choose|i: int| 0 <= i < rest.len() && rest[i] == t;
        assert(siblings(nodes, p, end)[i + 1] == t);
    }
}

/// The groups of the children of a node cover all of them without gaps: each group starts where
/// the one before it ends. Within a group all bytes have its class, and the classes of
/// neighbouring groups differ.
pub proof fn law_groups_partition(nodes: Seq<TrieNode>, p: int, end: int, ups: nat, classes: Seq<u8>)
    requires
        forest(nodes, p, end, ups),
    ensures
        ({
            let groups = runs(nodes, p, end, classes);
            &&& groups.len() == 0 <==> p == end
            &&& groups.len() > 0 ==> groups[0].0 == p && groups.last().1 == end
            &&& forall|k: int|
                #![trigger groups[k]]
                0 <= k < groups.len() ==> p <= groups[k].0 < groups[k].1 <= end && siblings(nodes, p, end).contains(
                    groups[k].0,
                )
            &&& forall|k: int, i: int|
                0 <= k < groups.len() && 0 <= i < siblings(nodes, groups[k].0, groups[k].1).len()
                    ==> classes[nodes[#[trigger] siblings(nodes, groups[k].0, groups[k].1)[i]].label() as int]
                    == groups[k].2
            &&& forall|k: int, l: int|
                #![trigger groups[k], groups[l]]
                0 <= k && k + 1 == l && l < groups.len() ==> groups[k].1 == groups[l].0 && groups[k].2
                    != groups[l].2
        }),
    decreases end - p,
{
    if p < end {
        let class = classes[nodes[p].label() as int];
        let q = run_end(nodes, p, end, classes, class);
        lemma_run(nodes, p, end, ups, classes, class);
        let rest = runs(nodes, q, end, classes);
        let groups = runs(nodes, p, end, classes);
        assert(groups == seq![(p, q, class)] + rest);
        law_groups_partition(nodes, q, end, ups, classes);
        assert forall|k: int|
            #![trigger groups[k]]
            0 <= k < groups.len() implies p <= groups[k].0 < groups[k].1 <= end && siblings(nodes, p, end).contains(
            groups[k].0,
        ) by {
            if k > 0 {
                assert(groups[k] == rest[k - 1]);
                lemma_run_siblings(nodes, p, end, ups, classes, class, groups[k].0);
            } else {
                assert(siblings(nodes, p, end)[0] == p);
            }
        }
        assert forall|k: int, i: int|
            0 <= k < groups.len() && 0 <= i < siblings(nodes, groups[k].0, groups[k].1).len() implies classes[nodes[
        #[trigger] siblings(nodes, groups[k].0, groups[k].1)[i]].label() as int] == groups[k].2 by {
            if k > 0 {
                assert(groups[k] == rest[k - 1]);
            }
        }
        assert forall|k: int, l: int|
            #![trigger groups[k], groups[l]]
            0 <= k && k + 1 == l && l < groups.len() implies groups[k].1 == groups[l].0 && groups[k].2
            != groups[l].2 by {
            assert(groups[l] == rest[l - 1]);
            if k > 0 {
                assert(groups[k] == rest[k - 1]);
                assert(rest[k - 1].1 == rest[l - 1].0);
            } else {
                assert(rest[0].0 == q);
                assert(rest[0].2 == classes[nodes[q].label() as int]);
            }
        }
        if rest.len() > 0 {
            assert(groups.last() == rest.last());
        }
    }
}

/// The groups of all nodes of a trie.
#[derive(Debug, Clone)]
pub struct ClassGroups {
    /// For each node, the number of its first group.
    group_idx: Vec<u32>,
    /// For each node, how many groups it has.
    group_cnt: Vec<u16>,
    /// For each group, the offset of its first node and the offset behind it.
    bounds: Vec<u32>,
    /// For each group, its class.
    group_class: Vec<u8>,
}

impl ClassGroups {
    /// The group with number `k`.
    closed spec fn group(&self, k: int) -> Group {
        (self.bounds@[2 * k] as int, self.bounds@[2 * k + 1] as int, self.group_class@[k])
    }

    /// The groups of the children of the node at `off`.
    pub closed spec fn groups_at(&self, off: int) -> Seq<Group> {
        Seq::new(
            self.group_cnt@[off] as nat,
            |k: int| self.group(self.group_idx@[off] + k),
        )
    }

    /// The tables belong together and fit a trie with `n` nodes.
    pub closed spec fn covers(&self, n: nat) -> bool {
        &&& self.group_idx@.len() == n
        &&& self.group_cnt@.len() == n
        &&& self.bounds@.len() == 2 * self.group_class@.len()
        &&& forall|off: int|
            #![trigger self.group_idx@[off]]
            0 <= off < n ==> self.group_idx@[off] + self.group_cnt@[off] <= self.group_class@.len()
        &&& forall|k: int| 0 <= k < self.group_class@.len() ==> (#[trigger] self.group(k)).0 < n
    }

    /// Groups the children of every node of `trie` by the class that `byte_to_class` gives to their
    /// bytes. The children stand in the order of their bytes.
    pub fn build(trie: &Trie, byte_to_class: &[u8; 256]) -> (r: Self)
        requires
            trie.wf(),
        ensures
            r.covers(trie.layout().len()),
            forall|off: int|
                0 <= off < trie.layout().len() ==> #[trigger] r.groups_at(off) == runs(
                    trie.layout(),
                    off + 1,
                    off + trie.layout()[off].size(),
                    byte_to_class@,
                ),
    {
        let n_nodes: usize = trie.node_count();
        let ghost nodes = trie.layout();
        let ghost classes = byte_to_class@;
        let mut r = ClassGroups {
            group_idx: vec![0u32; n_nodes],
            group_cnt: vec![0u16; n_nodes],
            bounds: Vec::new(),
            group_class: Vec::new(),
        };
        let mut node_off: usize = 0;
        while node_off < n_nodes
            invariant
                trie.wf(),
                nodes == trie.layout(),
                classes == byte_to_class@,
                n_nodes == nodes.len(),
                node_off <= n_nodes,
                r.group_idx@.len() == n_nodes,
                r.group_cnt@.len() == n_nodes,
                r.bounds@.len() == 2 * r.group_class@.len(),
                r.group_class@.len() <= 256 * node_off,
                forall|off: int|
                    #![trigger r.group_idx@[off]]
                    0 <= off < node_off ==> r.group_idx@[off] + r.group_cnt@[off] <= r.group_class@.len(),
                forall|k: int| 0 <= k < r.group_class@.len() ==> (#[trigger] r.group(k)).0 < n_nodes,
                forall|off: int|
                    0 <= off < node_off ==> #[trigger] r.groups_at(off) == runs(
                        nodes,
                        off + 1,
                        off + nodes[off].size(),
                        classes,
                    ),
            decreases n_nodes - node_off,
        {
            let node: NodeRef = trie.node_at(node_off);
            proof {
                lemma_node(nodes, node_off as int);
            }
            let end: usize = node_off + node.subtree_size();
            let ghost ups = (nodes[node_off as int].ups() + 1) as nat;
            let ghost before = r;
            let idx0: u32 = (r.bounds.len() / 2) as u32;
            let mut cur: usize = node_off + 1;
            let ghost mut done: Seq<Group> = Seq::empty();
            assert(done + runs(nodes, node_off + 1, end as int, classes) =~= runs(
                nodes,
                node_off + 1,
                end as int,
                classes,
            ));
            while cur < end
                invariant
                    trie.wf(),
                    nodes == trie.layout(),
                    classes == byte_to_class@,
                    n_nodes == nodes.len(),
                    node_off < n_nodes,
                    end <= n_nodes,
                    cur <= end,
                    forest(nodes, cur as int, end as int, ups),
                    r.group_idx == before.group_idx,
                    r.group_cnt == before.group_cnt,
                    r.bounds@.len() == 2 * r.group_class@.len(),
                    before.bounds@.len() == 2 * before.group_class@.len(),
                    idx0 == before.group_class@.len(),
                    r.group_class@.len() == idx0 + done.len(),
                    done.len() <= 256,
                    cur < end ==> done.len() <= nodes[cur as int].label(),
                    forall|k: int| 0 <= k < before.bounds@.len() ==> r.bounds@[k] == #[trigger] before.bounds@[k],
                    forall|k: int|
                        0 <= k < before.group_class@.len() ==> r.group_class@[k]
                            == #[trigger] before.group_class@[k],
                    forall|k: int| 0 <= k < r.group_class@.len() ==> (#[trigger] r.group(k)).0 < n_nodes,
                    forall|k: int| 0 <= k < done.len() ==> #[trigger] done[k] == r.group(idx0 + k),
                    done + runs(nodes, cur as int, end as int, classes) == runs(
                        nodes,
                        node_off + 1,
                        end as int,
                        classes,
                    ),
                decreases end - cur,
            {
                let first: NodeRef = trie.node_at(cur);
                let class: u8 = byte_to_class[first.byte() as usize];
                let mut p: usize = cur;
                while p < end
                    invariant_except_break
                        run_end(nodes, p as int, end as int, classes, class) == run_end(
                            nodes,
                            cur as int,
                            end as int,
                            classes,
                            class,
                        ),
                    invariant
                        trie.wf(),
                        nodes == trie.layout(),
                        classes == byte_to_class@,
                        end <= nodes.len(),
                        cur < end,
                        cur <= p <= end,
                        class == classes[nodes[cur as int].label() as int],
                        forest(nodes, p as int, end as int, ups),
                        cur < p < end ==> nodes[cur as int].label() < nodes[p as int].label(),
                    ensures
                        p == run_end(nodes, cur as int, end as int, classes, class),
                    decreases end - p,
                {
                    let n: NodeRef = trie.node_at(p);
                    let n_class: u8 = byte_to_class[n.byte() as usize];
                    if n_class != class {
                        break ;
                    }
                    p += n.subtree_size();
                }
                proof {
                    lemma_run(nodes, cur as int, end as int, ups, classes, class);
                }
                let ghost mid = r;
                r.bounds.push(cur as u32);
                r.bounds.push(p as u32);
                r.group_class.push(class);
                proof {
                    let more = done.push((cur as int, p as int, class));
                    assert(more + runs(nodes, p as int, end as int, classes) =~= done + runs(
                        nodes,
                        cur as int,
                        end as int,
                        classes,
                    ));
                    assert forall|k: int| 0 <= k < more.len() implies #[trigger] more[k] == r.group(idx0 + k) by {
                        if k < done.len() {
                            assert(more[k] == done[k]);
                            assert(done[k] == mid.group(idx0 + k));
                        }
                    }
                    assert forall|k: int| 0 <= k < r.group_class@.len() implies (#[trigger] r.group(k)).0
                        < n_nodes by {
                        if k < mid.group_class@.len() {
                            assert(r.group(k) == mid.group(k));
                        }
                    }
                    done = more;
                }
                cur = p;
            }
            let cnt: u16 = ((r.bounds.len() / 2) as u32 - idx0) as u16;
            let ghost built = r;
            r.group_idx[node_off] = idx0;
            r.group_cnt[node_off] = cnt;
            proof {
                assert forall|k: int| 0 <= k < r.group_class@.len() implies (#[trigger] r.group(k)).0 < n_nodes by {
                    assert(r.group(k) == built.group(k));
                }
                assert(r.groups_at(node_off as int) =~= done);
                assert(done + Seq::<Group>::empty() =~= done);
                assert forall|off: int|
                    0 <= off < node_off + 1 implies #[trigger] r.groups_at(off) == runs(
                    nodes,
                    off + 1,
                    off + nodes[off].size(),
                    classes,
                ) by {
                    if off < node_off {
                        assert(before.group_idx@[off] + before.group_cnt@[off] <= before.group_class@.len());
                        assert(r.group_idx@[off] == before.group_idx@[off]);
                        assert(r.groups_at(off) =~= before.groups_at(off));
                    }
                }
                assert forall|off: int|
                    #![trigger r.group_idx@[off]]
                    0 <= off < node_off + 1 implies r.group_idx@[off] + r.group_cnt@[off] <= r.group_class@.len() by {
                    if off < node_off {
                        assert(before.group_idx@[off] + before.group_cnt@[off] <= before.group_class@.len());
                    }
                }
            }
            node_off += 1;
        }
        r
    }

    /// Iterates over the groups of the children of `node`.
    pub fn groups<'a>(&'a self, trie: &'a Trie, node: &NodeRef) -> (r: ClassGroupIter<'a>)
        requires
            trie.wf(),
            self.covers(trie.layout().len()),
            trie.holds(*node),
        ensures
            r.wf(),
            r.of() == *trie,
            r.remaining() == self.groups_at(node.place()),
    {
        let off: usize = trie.node_offset(node);
        let idx: usize = self.group_idx[off] as usize;
        let cnt: usize = self.group_cnt[off] as usize;
        proof {
            assert(idx + cnt <= self.group_class@.len());
            assert(self.bounds@.len() == self.bounds.len());
        }
        let r = ClassGroupIter {
            trie,
            bounds: vstd::slice::slice_subrange(self.bounds.as_slice(), 2 * idx, 2 * (idx + cnt)),
            classes: vstd::slice::slice_subrange(self.group_class.as_slice(), idx, idx + cnt),
            i: 0,
        };
        proof {
            assert forall|k: int| 0 <= k < r.classes@.len() implies (#[trigger] r.group(k)).0
                < trie.layout().len() by {
                assert(r.group(k) == self.group(idx + k));
            }
            assert(r.remaining() =~= self.groups_at(node.place()));
        }
        r
    }
}

/// A group of children whose bytes have the same class.
#[derive(Clone, Copy, Debug)]
pub struct ClassChildGroup {
    /// The first child of the group.
    pub rep: NodeRef,
    /// The class of the bytes.
    pub class: u8,
    /// The offset of the first child.
    pub start_off: usize,
    /// The offset behind the last child's subtree.
    pub end_off: usize,
}

/// Iterator over the groups of the children of a node.
pub struct ClassGroupIter<'a> {
    trie: &'a Trie,
    bounds: &'a [u32],
    classes: &'a [u8],
    i: usize,
}

impl<'a> ClassGroupIter<'a> {
    /// The trie whose nodes are grouped.
    pub closed spec fn of(&self) -> Trie {
        *self.trie
    }

    /// The group with number `k` among those of the node.
    closed spec fn group(&self, k: int) -> Group {
        (self.bounds@[2 * k] as int, self.bounds@[2 * k + 1] as int, self.classes@[k])
    }

    /// Every group starts at a node of the trie.
    pub closed spec fn wf(&self) -> bool {
        &&& self.bounds@.len() == 2 * self.classes@.len()
        &&& self.i <= self.classes@.len()
        &&& forall|k: int|
            0 <= k < self.classes@.len() ==> (#[trigger] self.group(k)).0 < self.trie.layout().len()
    }

    /// The groups that are still to come.
    pub closed spec fn remaining(&self) -> Seq<Group> {
        Seq::new(
            (self.classes@.len() - self.i) as nat,
            |k: int| self.group(self.i + k),
        )
    }

    /// The next group, or `None` at the end.
    pub fn next(&mut self) -> (r: Option<ClassChildGroup>)
        requires
            old(self).wf(),
        ensures
            final(self).wf(),
            final(self).of() == old(self).of(),
            match r {
                Some(g) => {
                    &&& old(self).remaining().len() > 0
                    &&& old(self).remaining()[0] == (g.start_off as int, g.end_off as int, g.class)
                    &&& old(self).of().holds(g.rep)
                    &&& g.rep.place() == g.start_off
                    &&& final(self).remaining() == old(self).remaining().skip(1)
                },
                None => old(self).remaining().len() == 0 && final(self).remaining() == old(
                    self).remaining(),
            },
    {
        if self.i >= self.classes.len() {
            return None;
        }
        assert(self.bounds@.len() == self.bounds.len());
        assert(self.group(self.i as int).0 < self.trie.layout().len());
        let class: u8 = self.classes[self.i];
        let b0: usize = self.bounds[2 * self.i] as usize;
        let b1: usize = self.bounds[2 * self.i + 1] as usize;
        let rep: NodeRef = self.trie.node_at(b0);
        self.i = self.i + 1;
        proof {
            assert forall|k: int| 0 <= k < self.classes@.len() implies (#[trigger] self.group(k)).0
                < self.trie.layout().len() by {
                assert(self.group(k) == old(self).group(k));
            }
            assert(self.remaining() =~= old(self).remaining().skip(1));
        }
        Some(ClassChildGroup { rep, class, start_off: b0, end_off: b1 })
    }
}

} // verus!
