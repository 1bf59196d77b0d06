//! A compact, immutable trie over the byte strings of a vocabulary.
//!
//! It is built through a temporary trie with growing nodes, which is then laid out flat.
//! Traversals need neither pointers nor allocation.
use vstd::prelude::*;

use crate::primitives::TokenId;
use crate::vocabulary::flat::{contents, find, forest, law_extension_in_subtree, law_layout_unique, law_located_has_path, law_path_leads_back, law_prefix_closed, law_subtree_extends, lemma_locate_below, lemma_next_path, lemma_node, path_at, siblings, well_formed};
use crate::vocabulary::builder::{builds, field_of, HashTrie};
use crate::vocabulary::layout::{lemma_encodable, lemma_layout, tree_size, ups_fit};
use crate::vocabulary::node::{TrieNode, NO_TOKEN, SIZE_LIMIT};
use crate::vocabulary::words::{encodable, is_node, last_number, lemma_last_number, trie_nodes, word_list};

verus! {

/// A byte string under which a token can be looked up.
pub trait TokenBytes {
    /// The bytes of the token.
    spec fn bytes(&self) -> Seq<u8>;

    /// The bytes of the token.
    fn as_byte_slice(&self) -> (r: &[u8])
        ensures
            r@ == self.bytes(),
    ;
}

impl TokenBytes for &str {
    open spec fn bytes(&self) -> Seq<u8> {
        vstd::utf8::encode_utf8(self@)
    }

    fn as_byte_slice(&self) -> (r: &[u8]) {
        self.as_bytes()
    }
}

impl TokenBytes for &[u8] {
    open spec fn bytes(&self) -> Seq<u8> {
        self@
    }

    fn as_byte_slice(&self) -> (r: &[u8]) {
        self
    }
}

impl TokenBytes for Vec<u8> {
    open spec fn bytes(&self) -> Seq<u8> {
        self@
    }

    fn as_byte_slice(&self) -> (r: &[u8]) {
        self.as_slice()
    }
}

impl TokenBytes for &Vec<u8> {
    open spec fn bytes(&self) -> Seq<u8> {
        self@
    }

    fn as_byte_slice(&self) -> (r: &[u8]) {
        self.as_slice()
    }
}

impl TokenBytes for String {
    open spec fn bytes(&self) -> Seq<u8> {
        vstd::utf8::encode_utf8(self@)
    }

    fn as_byte_slice(&self) -> (r: &[u8]) {
        self.as_str().as_bytes()
    }
}

impl TokenBytes for &String {
    open spec fn bytes(&self) -> Seq<u8> {
        vstd::utf8::encode_utf8(self@)
    }

    fn as_byte_slice(&self) -> (r: &[u8]) {
        self.as_str().as_bytes()
    }
}

impl<const N: usize> TokenBytes for &[u8; N] {
    open spec fn bytes(&self) -> Seq<u8> {
        self@
    }

    fn as_byte_slice(&self) -> (r: &[u8]) {
        self.as_slice()
    }
}

/// The bytes of a text are its UTF-8 encoding, those of a list of bytes are the list.
pub proof fn law_token_bytes<const N: usize>(
    text: &str,
    string: String,
    slice: &[u8],
    vector: Vec<u8>,
    array: &[u8; N],
)
    ensures
        TokenBytes::bytes(&text) == vstd::utf8::encode_utf8(text@),
        TokenBytes::bytes(&string) == vstd::utf8::encode_utf8(string@),
        TokenBytes::bytes(&&string) == vstd::utf8::encode_utf8(string@),
        TokenBytes::bytes(&slice) == slice@,
        TokenBytes::bytes(&vector) == vector@,
        TokenBytes::bytes(&&vector) == vector@,
        TokenBytes::bytes(&array) == array@,
{
}

/// A node of a trie together with its place in it.
#[derive(Clone, Copy, PartialEq, Eq, Debug)]
pub struct NodeRef {
    offset: usize,
    node: TrieNode,
}

impl NodeRef {
    /// The place of the node in the trie.
    pub closed spec fn place(&self) -> int {
        self.offset as int
    }

    /// The node.
    pub closed spec fn data(&self) -> TrieNode {
        self.node
    }

    pub fn byte(&self) -> (r: u8)
        ensures
            r == self.data().label(),
    {
        self.node.byte()
    }

    pub fn token_id(&self) -> (r: Option<TokenId>)
        ensures
            r == self.data().token(),
    {
        self.node.token_id()
    }

    pub fn subtree_size(&self) -> (r: usize)
        ensures
            r == self.data().size(),
    {
        self.node.subtree_size()
    }

    pub fn num_parents(&self) -> (r: usize)
        ensures
            r == self.data().ups(),
    {
        self.node.num_parents()
    }
}

/// What a trie that holds the nodes `nodes` says of the byte string `path`: the token that it
/// spells, if any.
pub open spec fn token_at(nodes: Map<Seq<u8>, Option<TokenId>>, path: Seq<u8>) -> Option<TokenId> {
    if nodes.contains_key(path) {
        nodes[path]
    } else {
        None
    }
}

/// The length of the longest prefix of `bytes` of at least one and at most `k` bytes that is a
/// token; 0 if there is none.
pub open spec fn longest_token(nodes: Map<Seq<u8>, Option<TokenId>>, bytes: Seq<u8>, k: nat) -> nat
    decreases k,
{
    if k == 0 {
        0
    } else if token_at(nodes, bytes.take(k as int)) is Some {
        k
    } else {
        longest_token(nodes, bytes, (k - 1) as nat)
    }
}

/// The tokens that are cut off from `bytes` one after the other, each time the longest one, until
/// none fits.
pub open spec fn greedy(nodes: Map<Seq<u8>, Option<TokenId>>, bytes: Seq<u8>) -> Seq<TokenId>
    decreases bytes.len(),
{
    let k = longest_token(nodes, bytes, bytes.len());
    if 0 < k <= bytes.len() {
        seq![token_at(nodes, bytes.take(k as int))->0] + greedy(nodes, bytes.skip(k as int))
    } else {
        Seq::empty()
    }
}

/// `path` followed by one byte or more is a token.
pub open spec fn extends_to_token(nodes: Map<Seq<u8>, Option<TokenId>>, path: Seq<u8>) -> bool {
    exists|more: Seq<u8>| more.len() > 0 && #[trigger] token_at(nodes, path + more) is Some
}

/// How the trie of `words` is stored.
pub open spec fn flat_trie(words: Seq<Seq<u8>>) -> Seq<TrieNode> {
    choose|nodes: Seq<TrieNode>| #[trigger] well_formed(nodes) && contents(nodes) == trie_nodes(words)
}

/// Whatever stores the trie of `words` is the one way to store it.
proof fn lemma_flat_trie(nodes: Seq<TrieNode>, words: Seq<Seq<u8>>)
    requires
        well_formed(nodes),
        contents(nodes) == trie_nodes(words),
    ensures
        nodes == flat_trie(words),
{
    law_layout_unique(nodes, flat_trie(words));
}

/// Each of `ranges`, given by its start, its end and the levels to go up behind it, is a forest.
spec fn all_forests(nodes: Seq<TrieNode>, ranges: Seq<(usize, usize, usize)>) -> bool
    decreases ranges.len(),
{
    ranges.len() == 0 || {
        let (p, end, ups) = ranges.last();
        forest(nodes, p as int, end as int, ups as nat) && all_forests(nodes, ranges.drop_last())
    }
}

/// Twice the number of nodes in `ranges`, and the number of ranges.
spec fn open_weight(ranges: Seq<(usize, usize, usize)>) -> nat
    decreases ranges.len(),
{
    if ranges.len() == 0 {
        0
    } else {
        let (p, end, _) = ranges.last();
        let count: nat = if p < end {
            (end - p) as nat
        } else {
            0
        };
        2 * count + 1 + open_weight(ranges.drop_last())
    }
}

/// A compact, immutable trie.
#[derive(Clone, Default, PartialEq, Eq, Debug)]
pub struct Trie {
    /// The nodes in preorder, an artificial root first.
    nodes: Vec<TrieNode>,
}

impl View for Trie {
    type V = Map<Seq<u8>, Option<TokenId>>;

    /// The nodes: which byte strings lead to one, and which token ends there.
    open spec fn view(&self) -> Map<Seq<u8>, Option<TokenId>> {
        contents(self.layout())
    }
}

impl Trie {
    /// The nodes in the order in which they are stored.
    pub closed spec fn layout(&self) -> Seq<TrieNode> {
        self.nodes@
    }

    /// The stored nodes form a trie.
    pub open spec fn wf(&self) -> bool {
        well_formed(self.layout())
    }

    /// `n` is a node of this trie.
    pub open spec fn holds(&self, n: NodeRef) -> bool {
        &&& 0 <= n.place() < self.layout().len()
        &&& n.data() == self.layout()[n.place()]
    }

    /// The byte string that leads to `n`.
    pub open spec fn path(&self, n: NodeRef) -> Seq<u8> {
        path_at(self.layout(), n.place())
    }

    /// The node at `offset`.
    pub(crate) fn node_at(&self, offset: usize) -> (r: NodeRef)
        requires
            offset < self.layout().len(),
        ensures
            self.holds(r),
            r.place() == offset,
    {
        NodeRef { offset, node: self.nodes[offset] }
    }

    /// Builds the trie of a vocabulary in which `words[id]` holds the bytes of token `id`. Where
    /// several tokens have the same bytes, the last one counts. The end-of-sequence token needs no
    /// entry.
    pub fn from_tokens(words: &Vec<Vec<u8>>, eos_token: TokenId) -> (r: Self)
        requires
            encodable(word_list(words@)),
        ensures
            r.wf(),
            r@ == trie_nodes(word_list(words@)),
            r.layout() == flat_trie(word_list(words@)),
    {
        let builder: HashTrie = HashTrie::of_words(words);
        proof {
            lemma_encodable(builder, word_list(words@));
        }
        Self::from_builder(builder, words)
    }

    /// Builds the trie of a vocabulary, as `from_tokens` does, if it fits the fields of its nodes.
    pub fn try_from_tokens(words: &Vec<Vec<u8>>, eos_token: TokenId) -> (r: Option<Self>)
        ensures
            r is Some == encodable(word_list(words@)),
            r matches Some(trie) ==> {
                &&& trie.wf()
                &&& trie@ == trie_nodes(word_list(words@))
                &&& trie.layout() == flat_trie(word_list(words@))
            },
    {
        if words.len() > NO_TOKEN as usize {
            return None;
        }
        let builder: HashTrie = HashTrie::of_words(words);
        proof {
            lemma_encodable(builder, word_list(words@));
        }
        if builder.size_within((SIZE_LIMIT - 1) as usize).is_none() || !builder.parents_fit(0) {
            return None;
        }
        Some(Self::from_builder(builder, words))
    }

    /// Lays the trie of `words` out flat.
    fn from_builder(builder: HashTrie, words: &Vec<Vec<u8>>) -> (r: Self)
        requires
            builder.wf(),
            builder.byte == 0xFF,
            builds(builder, word_list(words@)),
            words@.len() <= NO_TOKEN,
            tree_size(builder) < SIZE_LIMIT,
            ups_fit(builder, 0),
        ensures
            r.wf(),
            r@ == trie_nodes(word_list(words@)),
            r.layout() == flat_trie(word_list(words@)),
    {
        let mut nodes: Vec<TrieNode> = Vec::with_capacity(words.len() * 2 + 1);
        let ghost list = word_list(words@);
        proof {
            assert forall|path: Seq<u8>| (#[trigger] builder.at(path)) matches Some(raw) ==> raw <= NO_TOKEN by {
                assert(builder.at(path) == if is_node(list, path) {
                    Some(field_of(last_number(list, path)))
                } else {
                    None
                });
                lemma_last_number(list, path);
            }
        }
        builder.serialize(&mut nodes, 0);
        proof {
            lemma_layout(nodes@, builder, list);
            lemma_flat_trie(nodes@, list);
        }
        Trie { nodes }
    }

    /// The nodes in the order in which they are stored.
    pub fn nodes(&self) -> (r: &[TrieNode])
        ensures
            r@ == self.layout(),
    {
        self.nodes.as_slice()
    }

    /// The trie that is stored as `nodes`, unless they form none.
    pub fn from_nodes(nodes: Vec<TrieNode>) -> (r: Option<Self>)
        ensures
            r is Some == well_formed(nodes@),
            r matches Some(trie) ==> trie.layout() == nodes@,
    {
        if nodes.len() == 0 || nodes.len() >= SIZE_LIMIT as usize {
            return None;
        }
        let root: TrieNode = nodes[0];
        if root.subtree_size() != nodes.len() || root.num_parents() != 0 || root.byte() != 0xFF {
            return None;
        }
        if Self::is_forest(&nodes) {
            Some(Trie { nodes })
        } else {
            None
        }
    }

    /// Are the nodes behind the first one subtrees of siblings?
    fn is_forest(nodes: &Vec<TrieNode>) -> (r: bool)
        requires
            0 < nodes@.len() < SIZE_LIMIT,
        ensures
            r == forest(nodes@, 1, nodes@.len() as int, 1),
    {
        let n: usize = nodes.len();
        let mut open: Vec<(usize, usize, usize)> = Vec::new();
        open.push((1, n, 1));
        assert(open@.drop_last() =~= Seq::<(usize, usize, usize)>::empty());
        assert(all_forests(nodes@, open@) == forest(nodes@, 1, n as int, 1)) by {
            reveal_with_fuel(all_forests, 2);
        }
        while open.len() > 0
            invariant
                n == nodes@.len() < SIZE_LIMIT,
                forall|i: int|
                    0 <= i < open@.len() ==> 0 < (#[trigger] open@[i]).0 <= open@[i].1 <= n && open@[i].2 <= 0x100,
                all_forests(nodes@, open@) == forest(nodes@, 1, n as int, 1),
            decreases open_weight(open@),
        {
            let (p, end, ups): (usize, usize, usize) = open[open.len() - 1];
            let ghost before = open@;
            open.pop();
            assert(open@ =~= before.drop_last());
            if p < end {
                let node: TrieNode = nodes[p];
                let size: usize = node.subtree_size();
                if size == 0 || size > end - p {
                    return false;
                }
                let q: usize = p + size;
                if node.num_parents() != (if q == end {
                    ups
                } else {
                    1
                }) {
                    return false;
                }
                if q < end && node.byte() >= nodes[q].byte() {
                    return false;
                }
                proof {
                    node.lemma_ups_bound();
                }
                let ghost rest = open@;
                open.push((q, end, ups));
                let ghost middle = open@;
                open.push((p + 1, q, node.num_parents() + 1));
                proof {
                    assert(middle.drop_last() =~= rest);
                    assert(open@.drop_last() =~= middle);
                    assert(all_forests(nodes@, middle) == (forest(nodes@, q as int, end as int, ups as nat)
                        && all_forests(nodes@, rest)));
                    assert(open_weight(middle) == 2 * (end - q) + 1 + open_weight(rest));
                    assert(open_weight(open@) == 2 * (q - (p + 1)) + 1 + open_weight(middle));
                    assert(all_forests(nodes@, before) == (forest(nodes@, p as int, end as int, ups as nat)
                        && all_forests(nodes@, rest)));
                }
            }
        }
        true
    }

    /// The number of nodes.
    pub fn node_count(&self) -> (r: usize)
        ensures
            r == self.layout().len(),
    {
        self.nodes.len()
    }

    /// The artificial root, which the empty byte string leads to.
    pub fn root(&self) -> (r: NodeRef)
        requires
            self.wf(),
        ensures
            self.holds(r),
            r.place() == 0,
            self.path(r) == Seq::<u8>::empty(),
    {
        self.node_at(0)
    }

    pub(crate) fn node_offset(&self, n: &NodeRef) -> (r: usize)
        ensures
            r == n.place(),
    {
        n.offset
    }

    /// The offset behind the subtree of `n`.
    fn next_node(&self, n: &NodeRef) -> (r: usize)
        requires
            self.wf(),
            self.holds(*n),
        ensures
            r == n.place() + n.data().size(),
            r <= self.layout().len(),
    {
        proof {
            lemma_node(self.layout(), n.place());
        }
        self.node_offset(n) + n.subtree_size()
    }

    /// Iterates over the direct children of `n`.
    pub fn children<'a>(&'a self, n: &NodeRef) -> (r: NodeChildren<'a>)
        requires
            self.wf(),
            self.holds(*n),
        ensures
            r.wf(),
            r.of() == *self,
            r.range() == (n.place() + 1, n.place() + n.data().size()),
    {
        proof {
            lemma_node(self.layout(), n.place());
        }
        NodeChildren {
            trie: self,
            current_offset: self.node_offset(n) + 1,
            end_offset: self.next_node(n),
        }
    }

    /// Iterates over the sibling nodes from offset `start` on that stand before offset `end`.
    pub fn children_from_to<'a>(&'a self, start: usize, end: usize) -> (r: NodeChildren<'a>)
        requires
            self.wf(),
            start >= end || end <= self.layout().len(),
        ensures
            r.wf(),
            r.of() == *self,
            r.range() == (start as int, end as int),
    {
        NodeChildren { trie: self, current_offset: start, end_offset: end }
    }

    /// The child of `n` that `byte` leads to, if there is one.
    pub fn child_at_byte(&self, n: &NodeRef, byte: u8) -> (r: Option<NodeRef>)
        requires
            self.wf(),
            self.holds(*n),
        ensures
            match r {
                Some(c) => self.holds(c) && self.path(c) == self.path(*n).push(byte),
                None => !self@.contains_key(self.path(*n).push(byte)),
            },
    {
        let ghost nodes = self.layout();
        let off: usize = self.node_offset(n);
        let ghost ups = (nodes[off as int].ups() + 1) as nat;
        let ghost path = seq![byte];
        proof {
            lemma_node(nodes, off as int);
            lemma_locate_below(nodes, off as int, path);
            assert(self.path(*n).push(byte) =~= self.path(*n) + path);
        }
        let mut p: usize = off + 1;
        let end: usize = self.next_node(n);
        while p < end
            invariant
                self.wf(),
                self.holds(*n),
                nodes == self.layout(),
                path == seq![byte],
                self.path(*n).push(byte) == self.path(*n) + path,
                off == n.place(),
                end <= nodes.len(),
                off + 1 <= p <= end,
                forest(nodes, p as int, end as int, ups),
                find(nodes, p as int, end as int, path) == crate::vocabulary::flat::locate(
                    nodes,
                    self.path(*n) + path,
                ),
            decreases end - p,
        {
            let c: NodeRef = self.node_at(p);
            if c.byte() == byte {
                proof {
                    law_located_has_path(nodes, self.path(*n) + path);
                }
                return Some(c);
            }
            p += c.subtree_size();
        }
        None
    }

    /// Descends from `n` along `bytes`.
    pub fn child_at_bytes(&self, n: NodeRef, bytes: &[u8]) -> (r: Option<NodeRef>)
        requires
            self.wf(),
            self.holds(n),
        ensures
            match r {
                Some(c) => self.holds(c) && self.path(c) == self.path(n) + bytes@,
                None => !self@.contains_key(self.path(n) + bytes@),
            },
    {
        let mut c: NodeRef = n;
        let mut i: usize = 0;
        assert(self.path(n) =~= self.path(n) + bytes@.take(0));
        while i < bytes.len()
            invariant
                self.wf(),
                self.holds(c),
                i <= bytes@.len(),
                self.path(c) == self.path(n) + bytes@.take(i as int),
            decreases bytes@.len() - i,
        {
            proof {
                assert((self.path(n) + bytes@.take(i as int)).push(bytes@[i as int]) =~= self.path(n)
                    + bytes@.take(i + 1));
            }
            c = match self.child_at_byte(&c, bytes[i]) {
                Some(next) => next,
                None => {
                    proof {
                        let short = self.path(n) + bytes@.take(i + 1);
                        let rest = bytes@.skip(i + 1);
                        assert(short + rest =~= self.path(n) + bytes@);
                        if self@.contains_key(self.path(n) + bytes@) {
                            law_prefix_closed(self.layout(), short, rest);
                        }
                    }
                    return None;
                },
            };
            i += 1;
        }
        assert(bytes@.take(i as int) =~= bytes@);
        Some(c)
    }

    /// The token that `bytes` spells, if any.
    pub fn token_id_at_bytes(&self, bytes: &[u8]) -> (r: Option<TokenId>)
        requires
            self.wf(),
        ensures
            r == token_at(self@, bytes@),
    {
        let root: NodeRef = self.root();
        assert(self.path(root) + bytes@ =~= bytes@);
        match self.child_at_bytes(root, bytes) {
            Some(n) => {
                proof {
                    law_path_leads_back(self.layout(), n.place());
                }
                n.token_id()
            },
            None => None,
        }
    }

    /// The token with the given bytes, if any.
    pub fn get<T: TokenBytes>(&self, token: T) -> (r: Option<TokenId>)
        requires
            self.wf(),
        ensures
            r == token_at(self@, token.bytes()),
    {
        self.token_id_at_bytes(token.as_byte_slice())
    }

    /// Cuts `bytes` into tokens, each time the longest one that fits, as far as that goes.
    pub fn greedy_tokenize(&self, bytes: &[u8]) -> (r: Vec<TokenId>)
        requires
            self.wf(),
            bytes@.len() == 0 || longest_token(self@, bytes@, bytes@.len()) > 0,
        ensures
            r@ == greedy(self@, bytes@),
    {
        let mut out: Vec<TokenId> = Vec::new();
        let mut start: usize = 0;
        assert(bytes@.skip(0) =~= bytes@);
        while start < bytes.len()
            invariant
                self.wf(),
                start <= bytes@.len(),
                out@ + greedy(self@, bytes@.skip(start as int)) == greedy(self@, bytes@),
            decreases bytes@.len() - start,
        {
            let ghost rest = bytes@.skip(start as int);
            let mut n: NodeRef = self.root();
            let mut i: usize = start;
            let mut last: Option<(TokenId, usize)> = None;
            assert(rest.take(0) =~= Seq::empty());
            while i < bytes.len()
                invariant_except_break
                    longest_token(self@, rest, (i - start) as nat) == match last {
                        Some((_, end)) => end - start,
                        None => 0,
                    },
                invariant
                    self.wf(),
                    self.holds(n),
                    start <= i <= bytes@.len(),
                    rest == bytes@.skip(start as int),
                    self.path(n) == rest.take(i - start),
                    match last {
                        Some((t, end)) => start < end <= i && token_at(self@, rest.take(end - start)) == Some(t),
                        None => true,
                    },
                ensures
                    longest_token(self@, rest, rest.len()) == match last {
                        Some((_, end)) => end - start,
                        None => 0,
                    },
                decreases bytes@.len() - i,
            {
                assert(rest.take(i - start).push(bytes@[i as int]) =~= rest.take(i + 1 - start));
                match self.child_at_byte(&n, bytes[i]) {
                    Some(c) => {
                        i += 1;
                        proof {
                            law_path_leads_back(self.layout(), c.place());
                        }
                        if let Some(t) = c.token_id() {
                            last = Some((t, i));
                        }
                        n = c;
                    },
                    None => {
                        proof {
                            lemma_no_longer_token(
                                self.layout(),
                                rest,
                                i - start,
                                rest.len() as int,
                            );
                        }
                        break;
                    },
                }
            }
            match last {
                Some((t, end)) => {
                    proof {
                        let k = end - start;
                        assert(rest.skip(k) =~= bytes@.skip(end as int));
                        assert(out@ + (seq![t] + greedy(self@, bytes@.skip(end as int))) =~= out@.push(t) + greedy(
                            self@,
                            bytes@.skip(end as int),
                        ));
                    }
                    out.push(t);
                    start = end;
                },
                None => {
                    assert(out@ + Seq::empty() =~= out@);
                    return out;
                },
            }
        }
        proof {
            assert(bytes@.skip(start as int).len() == 0);
            assert(out@ + Seq::<TokenId>::empty() =~= out@);
        }
        out
    }

    /// Is there a token that extends `start` by one byte or more?
    pub fn has_extensions(&self, start: &[u8]) -> (r: bool)
        requires
            self.wf(),
        ensures
            r == extends_to_token(self@, start@),
    {
        let ghost nodes = self.layout();
        let root: NodeRef = self.root();
        assert(self.path(root) + start@ =~= start@);
        let n0: NodeRef = match self.child_at_bytes(root, start) {
            Some(n) => n,
            None => {
                proof {
                    if extends_to_token(self@, start@) {
                        let more = choose|more: Seq<u8>|
                            more.len() > 0 && #[trigger] token_at(self@, start@ + more) is Some;
                        law_prefix_closed(nodes, start@, more);
                    }
                }
                return false;
            },
        };
        let off: usize = self.node_offset(&n0);
        let mut p: usize = off + 1;
        let end: usize = self.next_node(&n0);
        proof {
            lemma_node(nodes, off as int);
        }
        while p < end
            invariant
                self.wf(),
                nodes == self.layout(),
                self.holds(n0),
                self.path(n0) == start@,
                off == n0.place(),
                end == off + nodes[off as int].size(),
                end <= nodes.len(),
                off + 1 <= p <= end,
                forall|t: int| off < t < p ==> (#[trigger] nodes[t]).token() is None,
            decreases end - p,
        {
            let n: NodeRef = self.node_at(p);
            if n.token_id().is_some() {
                proof {
                    law_subtree_extends(nodes, off as int, p as int);
                    law_path_leads_back(nodes, p as int);
                    let more = crate::vocabulary::flat::spelling(nodes, off + 1, end as int, p as int);
                    assert(token_at(self@, start@ + more) is Some);
                }
                return true;
            }
            p += 1;
        }
        proof {
            if extends_to_token(self@, start@) {
                let more = choose|more: Seq<u8>|
                    more.len() > 0 && #[trigger] token_at(self@, start@ + more) is Some;
                law_extension_in_subtree(nodes, off as int, more);
            }
        }
        false
    }
}

impl Trie {
    /// Walks over all tokens with their byte strings, in the order of the nodes.
    pub fn walk(&self) -> (r: TokenWalk<'_>)
        requires
            self.wf(),
        ensures
            r.wf(),
            r.remaining() == tokens_from(self.layout(), 1),
    {
        proof {
            if self.layout()[0].size() == 1 {
                assert(self.layout()[0].ups() == 0);
            }
        }
        TokenWalk { trie: self, bytes: Vec::with_capacity(32), p: 1, next_pop: 0 }
    }

    /// Hands every token with its byte string to `sink`, once, in the order of `walk`.
    pub fn visit<S: TokenSink>(&self, sink: &mut S)
        requires
            self.wf(),
            forall|path: Seq<u8>, t: TokenId|
                path.len() > 0 && token_at(self@, path) == Some(t) ==> #[trigger] old(sink).ready(path, t),
        ensures
            taken(*old(sink), tokens_from(self.layout(), 1), *final(sink)),
    {
        let mut walk: TokenWalk<'_> = self.walk();
        let ghost all = tokens_from(self.layout(), 1);
        let ghost mut done: int = 0;
        let ghost mut sinks: Seq<S> = seq![*sink];
        assert(all.skip(0) =~= all);
        loop
            invariant
                self.wf(),
                walk.wf(),
                all == tokens_from(self.layout(), 1),
                0 <= done <= all.len(),
                walk.remaining() == all.skip(done),
                takes_each(sinks, all.take(done)),
                sinks[0] == *old(sink),
                sinks.last() == *sink,
                forall|path: Seq<u8>, t: TokenId|
                    path.len() > 0 && token_at(self@, path) == Some(t) ==> #[trigger] sink.ready(path, t),
            ensures
                done == all.len(),
            decreases all.len() - done,
        {
            match walk.advance() {
                Some(t) => {
                    assert(all.skip(done)[0] == all[done]);
                    proof {
                        lemma_listed_is_token(self.layout(), 1, done);
                    }
                    sink.accept(walk.bytes(), t);
                    proof {
                        let longer = sinks.push(*sink);
                        let entries = all.take(done + 1);
                        assert forall|i: int| 0 <= i < entries.len() implies S::takes(
                            longer[i],
                            #[trigger] entries[i],
                            longer[i + 1],
                        ) by {
                            if i < done {
                                assert(all.take(done)[i] == entries[i]);
                            }
                        }
                        sinks = longer;
                        assert(all.skip(done).skip(1) =~= all.skip(done + 1));
                        done = done + 1;
                    }
                },
                None => {
                    break ;
                },
            }
        }
        assert(all.take(done) =~= all);
    }

    /// Calls `f` on every token with its byte string, once, in the order of `walk`. What is returned
    /// is the list of the calls.
    pub fn for_each<F: FnMut(&[u8], TokenId)>(&self, f: F) -> (calls: Ghost<Seq<(Seq<u8>, TokenId)>>)
        requires
            self.wf(),
            forall|bytes: &[u8], t: TokenId|
                bytes@.len() > 0 && token_at(self@, bytes@) == Some(t) ==> #[trigger] f.requires((bytes, t)),
        ensures
            calls@ == tokens_from(self.layout(), 1),
            forall|path: Seq<u8>|
                path.len() > 0 && #[trigger] token_at(self@, path) is Some ==> exists|bytes: &[u8]|
                    bytes@ == path && #[trigger] f.ensures((bytes, token_at(self@, path)->0), ()),
    {
        let ghost callee = f;
        let ghost all = tokens_from(self.layout(), 1);
        let mut sink = Calls { f, calls: Ghost(Seq::empty()) };
        let ghost before = sink;
        self.visit(&mut sink);
        proof {
            lemma_calls(before, all, sink);
            assert(sink.calls@ =~= all);
            assert forall|path: Seq<u8>| path.len() > 0 && #[trigger] token_at(self@, path) is Some implies exists|
                bytes: &[u8],
            |
                bytes@ == path && #[trigger] f.ensures((bytes, token_at(self@, path)->0), ()) by {
                law_located_has_path(self.layout(), path);
                let t = crate::vocabulary::flat::locate(self.layout(), path)->0;
                assert(t != 0) by {
                    if t == 0 {
                        assert(path =~= Seq::empty());
                    }
                }
                lemma_token_is_listed(self.layout(), 1, t);
                let k = choose|k: int|
                    0 <= k < all.len() && #[trigger] all[k] == (path, token_at(self@, path)->0);
                assert(visited(callee, all[k]));
            }
        }
        sink.calls
    }
}

/// What takes the tokens of a trie one by one.
pub trait TokenSink: Sized {
    /// The sink can take `token` with the byte string `bytes`.
    spec fn ready(&self, bytes: Seq<u8>, token: TokenId) -> bool;

    /// `after` is what becomes of `before` when it takes the token `entry.1` with the byte string
    /// `entry.0`.
    spec fn takes(before: Self, entry: (Seq<u8>, TokenId), after: Self) -> bool;

    /// Takes a token.
    fn accept(&mut self, bytes: &[u8], token: TokenId)
        requires
            old(self).ready(bytes@, token),
        ensures
            Self::takes(*old(self), (bytes@, token), *final(self)),
            forall|b: Seq<u8>, t: TokenId| old(self).ready(b, t) ==> #[trigger] final(self).ready(b, t),
    ;
}

/// `sinks` are the states of a sink that takes `entries` one after the other, and nothing else: one
/// at first, and one behind each entry.
pub open spec fn takes_each<S: TokenSink>(sinks: Seq<S>, entries: Seq<(Seq<u8>, TokenId)>) -> bool {
    &&& sinks.len() == entries.len() + 1
    &&& forall|i: int| 0 <= i < entries.len() ==> S::takes(sinks[i], #[trigger] entries[i], sinks[i + 1])
}

/// `after` is what becomes of `before` when it takes `entries` one after the other, and nothing
/// else.
pub open spec fn taken<S: TokenSink>(before: S, entries: Seq<(Seq<u8>, TokenId)>, after: S) -> bool {
    exists|sinks: Seq<S>| #[trigger]
        takes_each(sinks, entries) && sinks[0] == before && sinks.last() == after
}

/// A function that is called on tokens, and the calls of it so far.
struct Calls<F: FnMut(&[u8], TokenId)> {
    f: F,
    calls: Ghost<Seq<(Seq<u8>, TokenId)>>,
}

impl<F: FnMut(&[u8], TokenId)> TokenSink for Calls<F> {
    closed spec fn ready(&self, bytes: Seq<u8>, token: TokenId) -> bool {
        forall|b: &[u8]| b@ == bytes ==> #[trigger] self.f.requires((b, token))
    }

    closed spec fn takes(before: Self, entry: (Seq<u8>, TokenId), after: Self) -> bool {
        &&& after.f == before.f
        &&& after.calls@ == before.calls@.push(entry)
        &&& visited(before.f, entry)
    }

    fn accept(&mut self, bytes: &[u8], token: TokenId) {
        (self.f)(bytes, token);
        let ghost entry = (bytes@, token);
        self.calls = Ghost(self.calls@.push(entry));
        assert(bytes@ == entry.0 && old(self).f.ensures((bytes, entry.1), ()));
    }
}

/// A function that was handed entries was called on each of them, and on nothing else.
proof fn lemma_calls<F: FnMut(&[u8], TokenId)>(before: Calls<F>, entries: Seq<(Seq<u8>, TokenId)>, after: Calls<F>)
    requires
        taken(before, entries, after),
    ensures
        after.f == before.f,
        after.calls@ == before.calls@ + entries,
        forall|k: int| 0 <= k < entries.len() ==> visited(before.f, #[trigger] entries[k]),
{
    let sinks = choose|sinks: Seq<Calls<F>>| #[trigger]
        takes_each(sinks, entries) && sinks[0] == before && sinks.last() == after;
    lemma_calls_upto(sinks, entries, entries.len() as int);
    assert(entries.take(entries.len() as int) =~= entries);
}

proof fn lemma_calls_upto<F: FnMut(&[u8], TokenId)>(sinks: Seq<Calls<F>>, entries: Seq<(Seq<u8>, TokenId)>, n: int)
    requires
        takes_each(sinks, entries),
        0 <= n <= entries.len(),
    ensures
        sinks[n].f == sinks[0].f,
        sinks[n].calls@ == sinks[0].calls@ + entries.take(n),
        forall|k: int| 0 <= k < n ==> visited(sinks[0].f, #[trigger] entries[k]),
    decreases n,
{
    if n == 0 {
        assert(sinks[0].calls@ + entries.take(0) =~= sinks[0].calls@);
    } else {
        lemma_calls_upto(sinks, entries, n - 1);
        assert(Calls::<F>::takes(sinks[n - 1], entries[n - 1], sinks[n]));
        assert(sinks[n].calls@ =~= sinks[0].calls@ + entries.take(n));
    }
}

/// `f` was called on the token `entry.1` with the bytes `entry.0`.
spec fn visited<F: FnMut(&[u8], TokenId)>(f: F, entry: (Seq<u8>, TokenId)) -> bool {
    exists|bytes: &[u8]| bytes@ == entry.0 && #[trigger] f.ensures((bytes, entry.1), ())
}

/// Walk over all tokens of a trie with their byte strings. It keeps the byte string of the current
/// node and needs no allocation but for that.
pub struct TokenWalk<'a> {
    trie: &'a Trie,
    bytes: Vec<u8>,
    p: usize,
    next_pop: usize,
}

impl<'a> TokenWalk<'a> {
    /// The walk stands in its trie.
    pub closed spec fn wf(&self) -> bool {
        let nodes = self.trie.layout();
        &&& self.trie.wf()
        &&& 1 <= self.p <= nodes.len()
        &&& self.bytes@ == path_at(nodes, self.p - 1)
        &&& self.next_pop == if nodes[self.p - 1].size() == 1 {
            nodes[self.p - 1].ups()
        } else {
            0
        }
    }

    /// The tokens that are still to come, with their byte strings.
    pub closed spec fn remaining(&self) -> Seq<(Seq<u8>, TokenId)> {
        tokens_from(self.trie.layout(), self.p as int)
    }

    /// The byte string of the current node.
    pub closed spec fn current(&self) -> Seq<u8> {
        self.bytes@
    }

    /// The byte string of the current node.
    pub fn bytes(&self) -> (r: &[u8])
        ensures
            r@ == self.current(),
    {
        self.bytes.as_slice()
    }

    /// Goes on to the next node that ends a token, and gives that token, or `None` at the end.
    pub fn advance(&mut self) -> (r: Option<TokenId>)
        requires
            old(self).wf(),
        ensures
            final(self).wf(),
            match r {
                Some(t) => {
                    &&& old(self).remaining().len() > 0
                    &&& old(self).remaining()[0] == (final(self).current(), t)
                    &&& final(self).remaining() == old(self).remaining().skip(1)
                },
                None => old(self).remaining().len() == 0 && final(self).remaining().len() == 0,
            },
    {
        while self.p < self.trie.node_count()
            invariant
                self.wf(),
                self.remaining() == old(self).remaining(),
            decreases self.trie.layout().len() - self.p,
        {
            let ghost nodes = self.trie.layout();
            let ghost before = self.remaining();
            proof {
                lemma_next_path(nodes, self.p - 1);
                lemma_node(nodes, self.p as int);
            }
            let keep: usize = self.bytes.len() - self.next_pop;
            self.bytes.truncate(keep);
            let n: NodeRef = self.trie.node_at(self.p);
            self.bytes.push(n.byte());
            self.next_pop = if n.subtree_size() == 1 {
                n.node.num_parents()
            } else {
                0
            };
            self.p = self.p + 1;
            assert(self.bytes@ =~= path_at(nodes, self.p - 1));
            if let Some(t) = n.token_id() {
                assert(before.skip(1) =~= self.remaining());
                return Some(t);
            }
        }
        None
    }
}

/// Every listed token is one of the trie.
pub proof fn lemma_listed_is_token(nodes: Seq<TrieNode>, p: int, k: int)
    requires
        well_formed(nodes),
        1 <= p,
        0 <= k < tokens_from(nodes, p).len(),
    ensures
        tokens_from(nodes, p)[k].0.len() > 0,
        token_at(contents(nodes), tokens_from(nodes, p)[k].0) == Some(tokens_from(nodes, p)[k].1),
    decreases nodes.len() - p,
{
    let later = tokens_from(nodes, p + 1);
    if nodes[p].token() is Some {
        if k > 0 {
            assert(tokens_from(nodes, p)[k] == later[k - 1]);
            lemma_listed_is_token(nodes, p + 1, k - 1);
        } else {
            law_path_leads_back(nodes, p);
        }
    } else {
        lemma_listed_is_token(nodes, p + 1, k);
    }
}

/// Every token of the trie is listed.
pub proof fn lemma_token_is_listed(nodes: Seq<TrieNode>, p: int, t: int)
    requires
        1 <= p <= t < nodes.len(),
        nodes[t].token() is Some,
    ensures
        exists|k: int|
            0 <= k < tokens_from(nodes, p).len() && #[trigger] tokens_from(nodes, p)[k] == (
                path_at(nodes, t),
                nodes[t].token()->0,
            ),
    decreases nodes.len() - p,
{
    let later = tokens_from(nodes, p + 1);
    if t == p {
        assert(tokens_from(nodes, p)[0] == (path_at(nodes, t), nodes[t].token()->0));
    } else {
        lemma_token_is_listed(nodes, p + 1, t);
        let k = choose|k: int|
            0 <= k < later.len() && #[trigger] later[k] == (path_at(nodes, t), nodes[t].token()->0);
        if nodes[p].token() is Some {
            assert(tokens_from(nodes, p)[k + 1] == later[k]);
        } else {
            assert(tokens_from(nodes, p)[k] == later[k]);
        }
    }
}

/// The tokens of the nodes from `p` on, each with the byte string that leads to its node.
pub open spec fn tokens_from(nodes: Seq<TrieNode>, p: int) -> Seq<(Seq<u8>, TokenId)>
    decreases nodes.len() - p,
{
    if 0 <= p < nodes.len() {
        match nodes[p].token() {
            Some(t) => seq![(path_at(nodes, p), t)] + tokens_from(nodes, p + 1),
            None => tokens_from(nodes, p + 1),
        }
    } else {
        Seq::empty()
    }
}

/// Where no node extends a prefix of `bytes` by one byte, no longer prefix is a token.
proof fn lemma_no_longer_token(nodes: Seq<TrieNode>, bytes: Seq<u8>, k: int, m: int)
    requires
        well_formed(nodes),
        0 <= k < m <= bytes.len(),
        !contents(nodes).contains_key(bytes.take(k + 1)),
    ensures
        longest_token(contents(nodes), bytes, m as nat) == longest_token(contents(nodes), bytes, k as nat),
    decreases m,
{
    let rest = bytes.take(m).skip(k + 1);
    assert(bytes.take(k + 1) + rest =~= bytes.take(m));
    if contents(nodes).contains_key(bytes.take(m)) {
        law_prefix_closed(nodes, bytes.take(k + 1), rest);
    }
    if m > k + 1 {
        lemma_no_longer_token(nodes, bytes, k, m - 1);
    }
}

/// Iterator over sibling nodes: it jumps over the subtree of each.
#[derive(Clone, Copy, PartialEq, Eq, Debug)]
pub struct NodeChildren<'a> {
    trie: &'a Trie,
    current_offset: usize,
    end_offset: usize,
}

impl<'a> NodeChildren<'a> {
    /// The trie whose nodes are visited.
    pub closed spec fn of(&self) -> Trie {
        *self.trie
    }

    /// The offsets between which the nodes that are still to come stand.
    pub closed spec fn range(&self) -> (int, int) {
        (self.current_offset as int, self.end_offset as int)
    }

    /// The places of the nodes that are still to come.
    pub open spec fn remaining(&self) -> Seq<int> {
        siblings(self.of().layout(), self.range().0, self.range().1)
    }

    /// All nodes that are still to come stand in the trie.
    pub open spec fn wf(&self) -> bool {
        &&& self.of().wf()
        &&& self.range().0 >= self.range().1 || self.range().1 <= self.of().layout().len()
    }

    /// Iterates over the sibling nodes of `trie` from one offset on that stand before another one.
    pub fn new(trie: &'a Trie, current_offset: usize, end_offset: usize) -> (r: Self)
        requires
            trie.wf(),
            current_offset >= end_offset || end_offset <= trie.layout().len(),
        ensures
            r.wf(),
            r.of() == *trie,
            r.range() == (current_offset as int, end_offset as int),
    {
        Self { trie, current_offset, end_offset }
    }

    /// The offsets between which the nodes that are still to come stand.
    pub fn offsets(&self) -> (r: (usize, usize))
        ensures
            r.0 == self.range().0,
            r.1 == self.range().1,
    {
        (self.current_offset, self.end_offset)
    }

    /// The next node, or `None` at the end.
    pub fn next(&mut self) -> (r: Option<NodeRef>)
        requires
            old(self).wf(),
        ensures
            final(self).wf(),
            final(self).of() == old(self).of(),
            match r {
                Some(n) => {
                    &&& old(self).remaining().len() > 0
                    &&& n.place() == old(self).remaining()[0]
                    &&& old(self).of().holds(n)
                    &&& final(self).range() == (old(self).range().0 + n.data().size(), old(self).range().1)
                    &&& final(self).remaining() == old(self).remaining().skip(1)
                },
                None => old(self).remaining().len() == 0 && final(self).range() == old(self).range(),
            },
    {
        if self.current_offset >= self.end_offset {
            return None;
        }
        let n: NodeRef = self.trie.node_at(self.current_offset);
        proof {
            lemma_node(self.trie.layout(), self.current_offset as int);
        }
        self.current_offset = self.current_offset + n.subtree_size();
        assert(old(self).remaining().skip(1) =~= self.remaining());
        Some(n)
    }
}

/// What a stored place in a trie needs to be used again: the trie itself.
#[derive(Clone, Copy)]
pub struct TrieDecodeCtx<'a> {
    pub trie: &'a Trie,
}

} // verus!
