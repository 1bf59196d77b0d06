//! Tries as flat sequences of nodes.
//!
//! The nodes stand in preorder, so that a subtree is a range: its root first, then the subtrees
//! of the root's children, in the order of their bytes. A range of sibling subtrees is called a
//! forest here.
use vstd::prelude::*;

use crate::primitives::TokenId;
use crate::vocabulary::node::{TrieNode, SIZE_LIMIT};

verus! {

/// The nodes from `p` to `end` are sibling subtrees, in the order of their bytes. Behind the last
/// of them a walk goes `ups` levels up, behind each other one a single level.
pub open spec fn forest(nodes: Seq<TrieNode>, p: int, end: int, ups: nat) -> bool
    decreases end - p,
{
    if p >= end {
        0 <= p && p == end && end <= nodes.len()
    } else {
        let q = p + nodes[p].size();
        &&& 0 <= p
        &&& p < q <= end <= nodes.len()
        &&& nodes[p].ups() == if q == end {
            ups
        } else {
            1
        }
        &&& q < end ==> nodes[p].label() < nodes[q].label()
        &&& forest(nodes, p + 1, q, nodes[p].ups() + 1)
        &&& forest(nodes, q, end, ups)
    }
}

/// `nodes` is a trie: an artificial root, then its children.
pub open spec fn well_formed(nodes: Seq<TrieNode>) -> bool {
    &&& 0 < nodes.len() < SIZE_LIMIT
    &&& nodes[0].size() == nodes.len()
    &&& nodes[0].ups() == 0
    &&& nodes[0].label() == 0xFF
    &&& forest(nodes, 1, nodes.len() as int, 1)
}

/// The node that the nonempty byte string `path` leads to, in the forest from `p` to `end`.
pub open spec fn find(nodes: Seq<TrieNode>, p: int, end: int, path: Seq<u8>) -> Option<int>
    decreases end - p,
{
    let q = p + nodes[p].size();
    if 0 <= p < q <= end && path.len() > 0 {
        if nodes[p].label() == path[0] {
            if path.len() == 1 {
                Some(p)
            } else {
                find(nodes, p + 1, q, path.skip(1))
            }
        } else {
            find(nodes, q, end, path)
        }
    } else {
        None
    }
}

/// The byte string that leads to the node `t` of the forest from `p` to `end`.
pub open spec fn spelling(nodes: Seq<TrieNode>, p: int, end: int, t: int) -> Seq<u8>
    decreases end - p,
{
    let q = p + nodes[p].size();
    if 0 <= p < q <= end && p <= t < end {
        if t >= q {
            spelling(nodes, q, end, t)
        } else if t == p {
            seq![nodes[p].label()]
        } else {
            seq![nodes[p].label()] + spelling(nodes, p + 1, q, t)
        }
    } else {
        Seq::empty()
    }
}

/// The node that `path` leads to from the root.
pub open spec fn locate(nodes: Seq<TrieNode>, path: Seq<u8>) -> Option<int> {
    if path.len() == 0 {
        Some(0)
    } else {
        find(nodes, 1, nodes.len() as int, path)
    }
}

/// The byte string that leads from the root to node `t`.
pub open spec fn path_at(nodes: Seq<TrieNode>, t: int) -> Seq<u8> {
    if t == 0 {
        Seq::empty()
    } else {
        spelling(nodes, 1, nodes.len() as int, t)
    }
}

/// The nodes of a trie: which byte strings lead to a node, and which token ends there.
pub open spec fn contents(nodes: Seq<TrieNode>) -> Map<Seq<u8>, Option<TokenId>> {
    Map::new(
        |path: Seq<u8>| locate(nodes, path) is Some,
        |path: Seq<u8>| nodes[locate(nodes, path)->0].token(),
    )
}

/// The roots of the sibling subtrees from `p` on that start before `end`.
pub open spec fn siblings(nodes: Seq<TrieNode>, p: int, end: int) -> Seq<int>
    decreases (if p < end { end - p } else { 0 }),
{
    if 0 <= p < end && nodes[p].size() > 0 {
        seq![p] + siblings(nodes, p + nodes[p].size(), end)
    } else {
        Seq::empty()
    }
}

/// The subtree of every node of a forest is a range of the forest, and its children are a forest.
pub proof fn lemma_subtree(nodes: Seq<TrieNode>, p: int, end: int, ups: nat, t: int)
    requires
        forest(nodes, p, end, ups),
        p <= t < end,
    ensures
        0 <= p,
        end <= nodes.len(),
        nodes[t].size() >= 1,
        t + nodes[t].size() <= end,
        forest(nodes, t + 1, t + nodes[t].size(), nodes[t].ups() + 1),
    decreases end - p,
{
    let q = p + nodes[p].size();
    if t >= q {
        lemma_subtree(nodes, q, end, ups, t);
    } else if t > p {
        lemma_subtree(nodes, p + 1, q, nodes[p].ups() + 1, t);
    }
}

/// Siblings are found one behind the other: the first one at the start, each other one behind the
/// subtree of the one before it, and behind the subtree of the last one the end.
pub proof fn law_siblings_adjoin(nodes: Seq<TrieNode>, p: int, end: int, ups: nat)
    requires
        forest(nodes, p, end, ups),
    ensures
        ({
            let found = siblings(nodes, p, end);
            &&& found.len() == 0 <==> p == end
            &&& found.len() > 0 ==> found[0] == p && found.last() + nodes[found.last()].size() == end
            &&& forall|i: int, j: int|
                #![trigger found[i], found[j]]
                0 <= i && j == i + 1 && j < found.len() ==> found[j] == found[i] + nodes[found[i]].size()
            &&& forall|i: int| 0 <= i < found.len() ==> p <= #[trigger] found[i] < end
        }),
    decreases end - p,
{
    if p < end {
        let q = p + nodes[p].size();
        let rest = siblings(nodes, q, end);
        let found = siblings(nodes, p, end);
        law_siblings_adjoin(nodes, q, end, ups);
        assert(found == seq![p] + rest);
        assert forall|i: int, j: int|
            #![trigger found[i], found[j]]
            0 <= i && j == i + 1 && j < found.len() implies found[j] == found[i] + nodes[found[i]].size() by {
            assert(found[j] == rest[j - 1]);
            if i > 0 {
                assert(found[i] == rest[i - 1]);
            }
        }
        assert forall|i: int| 0 <= i < found.len() implies p <= #[trigger] found[i] < end by {
            if i > 0 {
                assert(found[i] == rest[i - 1]);
            }
        }
        if rest.len() > 0 {
            assert(found.last() == rest.last());
        }
    }
}

/// Siblings stand in the order of their bytes, and no two of them have the same byte.
pub proof fn law_siblings_ordered(nodes: Seq<TrieNode>, p: int, end: int, ups: nat, i: int, j: int)
    requires
        forest(nodes, p, end, ups),
        0 <= i < j < siblings(nodes, p, end).len(),
    ensures
        nodes[siblings(nodes, p, end)[i]].label() < nodes[siblings(nodes, p, end)[j]].label(),
    decreases end - p,
{
    let q = p + nodes[p].size();
    assert(p < end);
    let rest = siblings(nodes, q, end);
    assert(siblings(nodes, p, end) == seq![p] + rest);
    assert(q < end) by {
        if q == end {
            assert(rest.len() == 0);
        }
    }
    assert(rest[0] == q);
    if i > 0 {
        law_siblings_ordered(nodes, q, end, ups, i - 1, j - 1);
    } else if j > 1 {
        law_siblings_ordered(nodes, q, end, ups, 0, j - 1);
    }
}

/// A path that is found leads to a node of the forest, and that node spells the path.
pub proof fn lemma_found_spells(nodes: Seq<TrieNode>, p: int, end: int, ups: nat, path: Seq<u8>)
    requires
        forest(nodes, p, end, ups),
        find(nodes, p, end, path) is Some,
    ensures
        p <= find(nodes, p, end, path)->0 < end,
        spelling(nodes, p, end, find(nodes, p, end, path)->0) == path,
    decreases end - p,
{
    let q = p + nodes[p].size();
    if nodes[p].label() == path[0] {
        if path.len() == 1 {
            assert(path =~= seq![nodes[p].label()]);
        } else {
            lemma_found_spells(nodes, p + 1, q, nodes[p].ups() + 1, path.skip(1));
            assert(path =~= seq![nodes[p].label()] + path.skip(1));
        }
    } else {
        lemma_found_spells(nodes, q, end, ups, path);
    }
}

/// The first byte that a node of a forest spells is that of one of the sibling roots: below the
/// first root's subtree it is the root's, behind it it is a greater one.
pub proof fn lemma_first_byte(nodes: Seq<TrieNode>, p: int, end: int, ups: nat, t: int)
    requires
        forest(nodes, p, end, ups),
        p <= t < end,
    ensures
        spelling(nodes, p, end, t).len() > 0,
        nodes[p].label() <= spelling(nodes, p, end, t)[0],
        t >= p + nodes[p].size() ==> nodes[p].label() < spelling(nodes, p, end, t)[0],
    decreases end - p,
{
    let q = p + nodes[p].size();
    if t >= q {
        lemma_first_byte(nodes, q, end, ups, t);
    }
}

/// What a node of a forest spells leads to that node, and with more bytes on into its subtree.
pub proof fn lemma_spelling_found(nodes: Seq<TrieNode>, p: int, end: int, ups: nat, t: int, more: Seq<u8>)
    requires
        forest(nodes, p, end, ups),
        p <= t < end,
    ensures
        spelling(nodes, p, end, t).len() > 0,
        find(nodes, p, end, spelling(nodes, p, end, t)) == Some(t),
        more.len() > 0 ==> find(nodes, p, end, spelling(nodes, p, end, t) + more) == find(
            nodes,
            t + 1,
            t + nodes[t].size(),
            more,
        ),
    decreases end - p,
{
    let q = p + nodes[p].size();
    let path = spelling(nodes, p, end, t);
    lemma_first_byte(nodes, p, end, ups, t);
    if t >= q {
        lemma_spelling_found(nodes, q, end, ups, t, more);
        assert((path + more)[0] == path[0]);
    } else if t == p {
        assert((path + more).skip(1) =~= more);
    } else {
        lemma_spelling_found(nodes, p + 1, q, nodes[p].ups() + 1, t, more);
        lemma_first_byte(nodes, p + 1, q, nodes[p].ups() + 1, t);
        let rest = spelling(nodes, p + 1, q, t);
        assert(path.skip(1) =~= rest);
        assert((path + more).skip(1) =~= rest + more);
    }
}

/// The subtree of every node of a trie is a range, and its children are a forest.
pub proof fn lemma_node(nodes: Seq<TrieNode>, t: int)
    requires
        well_formed(nodes),
        0 <= t < nodes.len(),
    ensures
        nodes[t].size() >= 1,
        t + nodes[t].size() <= nodes.len(),
        forest(nodes, t + 1, t + nodes[t].size(), nodes[t].ups() + 1),
{
    if t > 0 {
        lemma_subtree(nodes, 1, nodes.len() as int, 1, t);
    }
}

/// Nodes and the byte strings that lead to them correspond one to one: the path of a node leads
/// to the node.
pub proof fn law_path_leads_back(nodes: Seq<TrieNode>, t: int)
    requires
        well_formed(nodes),
        0 <= t < nodes.len(),
    ensures
        locate(nodes, path_at(nodes, t)) == Some(t),
{
    if t > 0 {
        lemma_spelling_found(nodes, 1, nodes.len() as int, 1, t, Seq::empty());
    }
}

/// Nodes and the byte strings that lead to them correspond one to one: a byte string that leads to
/// a node is the path of that node.
pub proof fn law_located_has_path(nodes: Seq<TrieNode>, path: Seq<u8>)
    requires
        well_formed(nodes),
        locate(nodes, path) is Some,
    ensures
        0 <= locate(nodes, path)->0 < nodes.len(),
        path_at(nodes, locate(nodes, path)->0) == path,
{
    if path.len() > 0 {
        lemma_found_spells(nodes, 1, nodes.len() as int, 1, path);
    } else {
        assert(path =~= Seq::empty());
    }
}

/// What a trie holds is its nodes: at the path of each node the token that ends there, and nothing
/// else. The path of the first node is empty.
pub proof fn law_contents_are_nodes(nodes: Seq<TrieNode>, t: int, path: Seq<u8>)
    requires
        well_formed(nodes),
        0 <= t < nodes.len(),
    ensures
        path_at(nodes, 0).len() == 0,
        contents(nodes).contains_key(path_at(nodes, t)),
        contents(nodes)[path_at(nodes, t)] == nodes[t].token(),
        contents(nodes).contains_key(path) ==> exists|u: int|
            0 <= u < nodes.len() && #[trigger] path_at(nodes, u) == path,
{
    law_path_leads_back(nodes, t);
    if contents(nodes).contains_key(path) {
        law_located_has_path(nodes, path);
        let u = locate(nodes, path)->0;
        assert(path_at(nodes, u) == path);
    }
}

/// A longer path leads on from the node of the shorter one, among its descendants.
pub proof fn lemma_locate_below(nodes: Seq<TrieNode>, t: int, more: Seq<u8>)
    requires
        well_formed(nodes),
        0 <= t < nodes.len(),
        more.len() > 0,
    ensures
        locate(nodes, path_at(nodes, t) + more) == find(nodes, t + 1, t + nodes[t].size(), more),
{
    if t > 0 {
        lemma_spelling_found(nodes, 1, nodes.len() as int, 1, t, more);
    } else {
        assert(path_at(nodes, t) + more =~= more);
    }
}

/// A prefix of a path that leads to a node of a forest leads to one, too.
proof fn lemma_find_prefix(nodes: Seq<TrieNode>, p: int, end: int, path: Seq<u8>, more: Seq<u8>)
    requires
        path.len() > 0,
        find(nodes, p, end, path + more) is Some,
    ensures
        find(nodes, p, end, path) is Some,
    decreases end - p,
{
    let q = p + nodes[p].size();
    assert((path + more)[0] == path[0]);
    if nodes[p].label() == path[0] {
        if path.len() > 1 {
            assert((path + more).skip(1) =~= path.skip(1) + more);
            lemma_find_prefix(nodes, p + 1, q, path.skip(1), more);
        }
    } else {
        lemma_find_prefix(nodes, q, end, path, more);
    }
}

/// The set of paths is closed under prefixes: a prefix of a path that leads to a node leads to a
/// node.
pub proof fn law_prefix_closed(nodes: Seq<TrieNode>, path: Seq<u8>, more: Seq<u8>)
    requires
        well_formed(nodes),
        contents(nodes).contains_key(path + more),
    ensures
        contents(nodes).contains_key(path),
{
    if path.len() > 0 {
        lemma_find_prefix(nodes, 1, nodes.len() as int, path, more);
    }
}

/// Below a node of a forest, spellings continue that of the node.
proof fn lemma_spelling_below(nodes: Seq<TrieNode>, p: int, end: int, ups: nat, t: int, d: int)
    requires
        forest(nodes, p, end, ups),
        p <= t < d,
        d < t + nodes[t].size(),
        t < end,
    ensures
        spelling(nodes, p, end, d) == spelling(nodes, p, end, t) + spelling(
            nodes,
            t + 1,
            t + nodes[t].size(),
            d,
        ),
    decreases end - p,
{
    let q = p + nodes[p].size();
    lemma_subtree(nodes, p, end, ups, t);
    if t >= q {
        lemma_spelling_below(nodes, q, end, ups, t, d);
    } else if t > p {
        lemma_subtree(nodes, p + 1, q, nodes[p].ups() + 1, t);
        lemma_spelling_below(nodes, p + 1, q, nodes[p].ups() + 1, t, d);
        assert(spelling(nodes, p, end, d) =~= spelling(nodes, p, end, t) + spelling(
            nodes,
            t + 1,
            t + nodes[t].size(),
            d,
        ));
    }
}

/// The nodes of a subtree are exactly those whose path extends the path of its root: inside the
/// range of the subtree paths continue that of the root.
pub proof fn law_subtree_extends(nodes: Seq<TrieNode>, t: int, d: int)
    requires
        well_formed(nodes),
        0 <= t < d < t + nodes[t].size(),
        t < nodes.len(),
    ensures
        d < nodes.len(),
        spelling(nodes, t + 1, t + nodes[t].size(), d).len() > 0,
        path_at(nodes, d) == path_at(nodes, t) + spelling(nodes, t + 1, t + nodes[t].size(), d),
{
    lemma_node(nodes, t);
    lemma_first_byte(nodes, t + 1, t + nodes[t].size(), nodes[t].ups() + 1, d);
    if t > 0 {
        lemma_spelling_below(nodes, 1, nodes.len() as int, 1, t, d);
    } else {
        assert(path_at(nodes, d) =~= path_at(nodes, t) + spelling(nodes, 1, nodes.len() as int, d));
    }
}

/// The nodes of a subtree are exactly those whose path extends the path of its root: a path that
/// extends that of the root leads into the range of the subtree.
pub proof fn law_extension_in_subtree(nodes: Seq<TrieNode>, t: int, more: Seq<u8>)
    requires
        well_formed(nodes),
        0 <= t < nodes.len(),
        more.len() > 0,
        locate(nodes, path_at(nodes, t) + more) is Some,
    ensures
        t < locate(nodes, path_at(nodes, t) + more)->0 < t + nodes[t].size(),
{
    lemma_node(nodes, t);
    lemma_locate_below(nodes, t, more);
    lemma_found_spells(nodes, t + 1, t + nodes[t].size(), nodes[t].ups() + 1, more);
}

/// `a` comes before `b` in lexicographic order.
pub open spec fn lex_less(a: Seq<u8>, b: Seq<u8>) -> bool
    decreases a.len(),
{
    b.len() > 0 && (a.len() == 0 || a[0] < b[0] || (a[0] == b[0] && lex_less(a.skip(1), b.skip(1))))
}

/// The nodes of a forest stand in the lexicographic order of what they spell.
proof fn lemma_spelling_order(nodes: Seq<TrieNode>, p: int, end: int, ups: nat, t: int, u: int)
    requires
        forest(nodes, p, end, ups),
        p <= t < u < end,
    ensures
        lex_less(spelling(nodes, p, end, t), spelling(nodes, p, end, u)),
    decreases end - p,
{
    let q = p + nodes[p].size();
    let first = spelling(nodes, p, end, t);
    let second = spelling(nodes, p, end, u);
    lemma_first_byte(nodes, p, end, ups, t);
    lemma_first_byte(nodes, p, end, ups, u);
    if t >= q {
        lemma_spelling_order(nodes, q, end, ups, t, u);
    } else if u < q {
        let inner = spelling(nodes, p + 1, q, u);
        assert(second.skip(1) =~= inner);
        lemma_first_byte(nodes, p + 1, q, nodes[p].ups() + 1, u);
        if t > p {
            lemma_spelling_order(nodes, p + 1, q, nodes[p].ups() + 1, t, u);
            assert(first.skip(1) =~= spelling(nodes, p + 1, q, t));
        } else {
            assert(first.skip(1).len() == 0);
        }
        assert(lex_less(first.skip(1), second.skip(1)));
        assert(first[0] == second[0]);
    } else {
        assert(first[0] == nodes[p].label());
    }
}

/// Nodes are stored in the lexicographic order of their paths.
pub proof fn law_paths_ordered(nodes: Seq<TrieNode>, t: int, u: int)
    requires
        well_formed(nodes),
        0 <= t < u < nodes.len(),
    ensures
        lex_less(path_at(nodes, t), path_at(nodes, u)),
{
    let n = nodes.len() as int;
    lemma_first_byte(nodes, 1, n, 1, u);
    if t > 0 {
        lemma_spelling_order(nodes, 1, n, 1, t, u);
    }
}

/// Lexicographic order goes by the first byte in which two strings differ; a string comes before
/// those that it is the front of.
pub proof fn law_lexicographic(a: Seq<u8>, b: Seq<u8>)
    ensures
        lex_less(a, b) <==> exists|n: int|
            0 <= n <= a.len() && n < b.len() && #[trigger] a.take(n) == b.take(n) && (n == a.len() || a[n] < b[n]),
    decreases a.len(),
{
    if lex_less(a, b) {
        if a.len() == 0 || a[0] < b[0] {
            assert(a.take(0) =~= b.take(0));
        } else {
            let x = a.skip(1);
            let y = b.skip(1);
            law_lexicographic(x, y);
            let n = choose|n: int|
                0 <= n <= x.len() && n < y.len() && #[trigger] x.take(n) == y.take(n) && (n == x.len() || x[n]
                    < y[n]);
            assert(a.take(n + 1) =~= seq![a[0]] + x.take(n));
            assert(b.take(n + 1) =~= seq![b[0]] + y.take(n));
        }
    }
    if exists|n: int|
        0 <= n <= a.len() && n < b.len() && #[trigger] a.take(n) == b.take(n) && (n == a.len() || a[n] < b[n]) {
        let n = choose|n: int|
            0 <= n <= a.len() && n < b.len() && #[trigger] a.take(n) == b.take(n) && (n == a.len() || a[n] < b[n]);
        if n > 0 {
            let x = a.skip(1);
            let y = b.skip(1);
            assert(a.take(n)[0] == b.take(n)[0]);
            assert(x.take(n - 1) =~= a.take(n).skip(1));
            assert(y.take(n - 1) =~= b.take(n).skip(1));
            law_lexicographic(x, y);
        }
    }
}

/// The children of a node are exactly the nodes whose path is that of the node and one byte more,
/// the byte of the child.
pub proof fn law_children_have_one_byte_more(nodes: Seq<TrieNode>, t: int, c: int)
    requires
        well_formed(nodes),
        0 <= t < nodes.len(),
        0 <= c < nodes.len(),
    ensures
        siblings(nodes, t + 1, t + nodes[t].size()).contains(c) <==> path_at(nodes, c) == path_at(nodes, t).push(
            nodes[c].label(),
        ),
{
    let p = t + 1;
    let end = t + nodes[t].size();
    let ups = nodes[t].ups() + 1;
    let children = siblings(nodes, p, end);
    let here = path_at(nodes, t);
    lemma_node(nodes, t);
    if p <= c < end {
        law_subtree_extends(nodes, t, c);
        lemma_sibling_spells(nodes, p, end, ups, c);
        let inner = spelling(nodes, p, end, c);
        if inner.len() == 1 {
            assert(here + inner =~= here.push(nodes[c].label()));
        }
        if path_at(nodes, c) == here.push(nodes[c].label()) {
            assert(path_at(nodes, c).len() == here.len() + inner.len());
            assert(here.push(nodes[c].label()).len() == here.len() + 1);
            assert(inner.len() == 1);
        }
    } else {
        law_siblings_adjoin(nodes, p, end, ups);
        if path_at(nodes, c) == here.push(nodes[c].label()) {
            law_path_leads_back(nodes, c);
            assert(here.push(nodes[c].label()) =~= here + seq![nodes[c].label()]);
            law_extension_in_subtree(nodes, t, seq![nodes[c].label()]);
        }
    }
}

/// The roots of a forest are its nodes that spell one byte, their own.
proof fn lemma_sibling_spells(nodes: Seq<TrieNode>, p: int, end: int, ups: nat, c: int)
    requires
        forest(nodes, p, end, ups),
        p <= c < end,
    ensures
        siblings(nodes, p, end).contains(c) <==> spelling(nodes, p, end, c).len() == 1,
        spelling(nodes, p, end, c).len() == 1 ==> spelling(nodes, p, end, c)[0] == nodes[c].label(),
    decreases end - p,
{
    let q = p + nodes[p].size();
    let rest = siblings(nodes, q, end);
    let all = siblings(nodes, p, end);
    assert(all == seq![p] + rest);
    law_siblings_adjoin(nodes, q, end, ups);
    if c == p {
        assert(all[0] == c);
    } else if c < q {
        lemma_first_byte(nodes, p + 1, q, nodes[p].ups() + 1, c);
        if all.contains(c) {
            let i = choose|i: int| 0 <= i < all.len() && all[i] == c;
            assert(rest[i - 1] == c);
        }
    } else {
        lemma_sibling_spells(nodes, q, end, ups, c);
        if rest.contains(c) {
            let i = choose|i: int| 0 <= i < rest.len() && rest[i] == c;
            assert(all[i + 1] == c);
        }
        if all.contains(c) {
            let i = choose|i: int| 0 <= i < all.len() && all[i] == c;
            assert(rest[i - 1] == c);
        }
    }
}

/// A path whose first byte is below that of the first root leads to no node of a forest.
proof fn lemma_small_byte(nodes: Seq<TrieNode>, p: int, end: int, ups: nat, path: Seq<u8>)
    requires
        forest(nodes, p, end, ups),
        p < end ==> path.len() > 0 && path[0] < nodes[p].label(),
    ensures
        find(nodes, p, end, path) is None,
{
    if find(nodes, p, end, path) is Some {
        lemma_found_spells(nodes, p, end, ups, path);
        lemma_first_byte(nodes, p, end, ups, find(nodes, p, end, path)->0);
    }
}

/// The forests from `p` to `end` in `a` and from `q` to `stop` in `b` have nodes at the same
/// paths, with the same tokens.
spec fn same_contents(a: Seq<TrieNode>, p: int, end: int, b: Seq<TrieNode>, q: int, stop: int) -> bool {
    forall|path: Seq<u8>|
        #![trigger find(a, p, end, path)]
        #![trigger find(b, q, stop, path)]
        {
            &&& find(a, p, end, path) is Some == find(b, q, stop, path) is Some
            &&& find(a, p, end, path) is Some ==> a[find(a, p, end, path)->0].token() == b[find(
                b,
                q,
                stop,
                path,
            )->0].token()
        }
}

/// What stands below and behind the first root of forests with the same contents has the same
/// contents.
proof fn lemma_same_parts(
    a: Seq<TrieNode>,
    p: int,
    end: int,
    ups_a: nat,
    b: Seq<TrieNode>,
    q: int,
    stop: int,
    ups_b: nat,
)
    requires
        forest(a, p, end, ups_a),
        forest(b, q, stop, ups_b),
        p < end,
        same_contents(a, p, end, b, q, stop),
    ensures
        q < stop,
        a[p].label() == b[q].label(),
        a[p].token() == b[q].token(),
        same_contents(a, p + 1, p + a[p].size(), b, q + 1, q + b[q].size()),
        same_contents(a, p + a[p].size(), end, b, q + b[q].size(), stop),
{
    let pa = p + a[p].size();
    let qb = q + b[q].size();
    let label = a[p].label();
    assert(find(a, p, end, seq![label]) == Some(p));
    assert(q < stop);
    assert(find(b, q, stop, seq![b[q].label()]) == Some(q));
    assert(label == b[q].label()) by {
        if label < b[q].label() {
            lemma_small_byte(b, q, stop, ups_b, seq![label]);
        }
        if b[q].label() < label {
            lemma_small_byte(a, p, end, ups_a, seq![b[q].label()]);
        }
    }
    assert forall|path: Seq<u8>|
        #![trigger find(a, p + 1, pa, path)]
        #![trigger find(b, q + 1, qb, path)]
        {
            &&& find(a, p + 1, pa, path) is Some == find(b, q + 1, qb, path) is Some
            &&& find(a, p + 1, pa, path) is Some ==> a[find(a, p + 1, pa, path)->0].token() == b[find(
                b,
                q + 1,
                qb,
                path,
            )->0].token()
        } by {
        if path.len() > 0 {
            let long = seq![label] + path;
            assert(long.skip(1) =~= path);
            assert(find(a, p, end, long) == find(a, p + 1, pa, path));
            assert(find(b, q, stop, long) == find(b, q + 1, qb, path));
        }
    }
    assert forall|path: Seq<u8>|
        #![trigger find(a, pa, end, path)]
        #![trigger find(b, qb, stop, path)]
        {
            &&& find(a, pa, end, path) is Some == find(b, qb, stop, path) is Some
            &&& find(a, pa, end, path) is Some ==> a[find(a, pa, end, path)->0].token() == b[find(
                b,
                qb,
                stop,
                path,
            )->0].token()
        } by {
        if path.len() > 0 {
            if path[0] == label {
                lemma_small_byte(a, pa, end, ups_a, path);
                lemma_small_byte(b, qb, stop, ups_b, path);
            } else {
                assert(find(a, p, end, path) == find(a, pa, end, path));
                assert(find(b, q, stop, path) == find(b, qb, stop, path));
            }
        }
    }
}

/// Forests with the same contents have the same nodes.
proof fn lemma_same_forest(
    a: Seq<TrieNode>,
    p: int,
    end: int,
    b: Seq<TrieNode>,
    q: int,
    stop: int,
    ups: nat,
)
    requires
        forest(a, p, end, ups),
        forest(b, q, stop, ups),
        same_contents(a, p, end, b, q, stop),
    ensures
        a.subrange(p, end) == b.subrange(q, stop),
    decreases end - p,
{
    if p < end {
        lemma_same_parts(a, p, end, ups, b, q, stop, ups);
        let pa = p + a[p].size();
        let qb = q + b[q].size();
        lemma_same_forest(a, pa, end, b, qb, stop, ups);
        assert(a.subrange(pa, end).len() == end - pa);
        assert(b.subrange(qb, stop).len() == stop - qb);
        assert(a[p].ups() == b[q].ups());
        lemma_same_forest(a, p + 1, pa, b, q + 1, qb, a[p].ups() + 1);
        assert(a.subrange(p + 1, pa).len() == pa - (p + 1));
        assert(b.subrange(q + 1, qb).len() == qb - (q + 1));
        a[p].lemma_equal(b[q]);
        assert(a.subrange(p, end) =~= seq![a[p]] + a.subrange(p + 1, pa) + a.subrange(pa, end));
        assert(b.subrange(q, stop) =~= seq![b[q]] + b.subrange(q + 1, qb) + b.subrange(qb, stop));
    } else if q < stop {
        assert(find(b, q, stop, seq![b[q].label()]) == Some(q));
    }
}

/// A trie is stored in one way only: its contents determine its nodes and their order.
pub proof fn law_layout_unique(a: Seq<TrieNode>, b: Seq<TrieNode>)
    requires
        well_formed(a),
        well_formed(b),
        contents(a) == contents(b),
    ensures
        a == b,
{
    let n = a.len() as int;
    let m = b.len() as int;
    assert forall|path: Seq<u8>|
        #![trigger find(a, 1, n, path)]
        #![trigger find(b, 1, m, path)]
        {
            &&& find(a, 1, n, path) is Some == find(b, 1, m, path) is Some
            &&& find(a, 1, n, path) is Some ==> a[find(a, 1, n, path)->0].token() == b[find(
                b,
                1,
                m,
                path,
            )->0].token()
        } by {
        if path.len() > 0 {
            assert(contents(a).contains_key(path) == contents(b).contains_key(path));
            if contents(a).contains_key(path) {
                assert(contents(a)[path] == contents(b)[path]);
            }
        }
    }
    lemma_same_forest(a, 1, n, b, 1, m, 1);
    assert(a.subrange(1, n).len() == n - 1);
    assert(b.subrange(1, m).len() == m - 1);
    assert(contents(a)[Seq::<u8>::empty()] == contents(b)[Seq::<u8>::empty()]);
    a[0].lemma_equal(b[0]);
    assert(a =~= seq![a[0]] + a.subrange(1, n));
    assert(b =~= seq![b[0]] + b.subrange(1, m));
}

/// The last node of a forest knows how far up the walk goes that has finished the forest.
proof fn lemma_last_ups(nodes: Seq<TrieNode>, p: int, end: int, ups: nat)
    requires
        forest(nodes, p, end, ups),
        p < end,
    ensures
        nodes[end - 1].size() == 1,
        nodes[end - 1].ups() + 1 == spelling(nodes, p, end, end - 1).len() + ups,
    decreases end - p,
{
    let q = p + nodes[p].size();
    if q < end {
        lemma_last_ups(nodes, q, end, ups);
    } else if q > p + 1 {
        lemma_last_ups(nodes, p + 1, q, nodes[p].ups() + 1);
    }
}

/// Where the next node of a forest stands relative to a node: under it, or behind a leaf as many
/// levels up as the leaf says.
proof fn lemma_next_spelling(nodes: Seq<TrieNode>, p: int, end: int, ups: nat, t: int)
    requires
        forest(nodes, p, end, ups),
        p <= t,
        t + 1 < end,
    ensures
        nodes[t].size() == 1 ==> nodes[t].ups() <= spelling(nodes, p, end, t).len(),
        spelling(nodes, p, end, t + 1) == spelling(nodes, p, end, t).take(
            spelling(nodes, p, end, t).len() - if nodes[t].size() == 1 {
                nodes[t].ups() as int
            } else {
                0
            },
        ).push(nodes[t + 1].label()),
    decreases end - p,
{
    let q = p + nodes[p].size();
    let here = spelling(nodes, p, end, t);
    let next = spelling(nodes, p, end, t + 1);
    reveal_with_fuel(spelling, 2);
    reveal_with_fuel(forest, 2);
    let back = if nodes[t].size() == 1 {
        nodes[t].ups() as int
    } else {
        0
    };
    if t >= q {
        lemma_next_spelling(nodes, q, end, ups, t);
    } else if t + 1 == q {
        assert(next =~= seq![nodes[q].label()]);
        if t > p {
            lemma_last_ups(nodes, p + 1, q, nodes[p].ups() + 1);
        }
        assert(here.len() == back);
        assert(next =~= here.take(here.len() - back).push(nodes[t + 1].label()));
    } else if t > p {
        lemma_next_spelling(nodes, p + 1, q, nodes[p].ups() + 1, t);
        assert(next =~= here.take(here.len() - back).push(nodes[t + 1].label()));
    } else {
        assert(next =~= seq![nodes[p].label(), nodes[p + 1].label()]);
        assert(next =~= here.take(here.len() - back).push(nodes[t + 1].label()));
    }
}

/// A walk over all nodes in order knows every path: the next node stands under a node with
/// children, and behind a leaf as many levels up as the leaf says.
pub proof fn lemma_next_path(nodes: Seq<TrieNode>, t: int)
    requires
        well_formed(nodes),
        0 <= t,
        t + 1 < nodes.len(),
    ensures
        nodes[t].size() == 1 ==> nodes[t].ups() <= path_at(nodes, t).len(),
        path_at(nodes, t + 1) == path_at(nodes, t).take(
            path_at(nodes, t).len() - if nodes[t].size() == 1 {
                nodes[t].ups() as int
            } else {
                0
            },
        ).push(nodes[t + 1].label()),
{
    if t > 0 {
        lemma_next_spelling(nodes, 1, nodes.len() as int, 1, t);
    } else {
        assert(path_at(nodes, 1) =~= seq![nodes[1].label()]);
        assert(path_at(nodes, 1) =~= path_at(nodes, 0).take(0).push(nodes[1].label()));
    }
}

} // verus!
