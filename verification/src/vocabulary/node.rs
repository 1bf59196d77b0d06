//! Nodes of a flat trie.
//!
//! A node takes 8 bytes: a first word `[ token_id:24 | byte:8 ]` and a second word
//! `[ subtree_size:24 | num_parents:8 ]`.
use vstd::prelude::*;

use crate::primitives::TokenId;

verus! {

/// The token field of a node that ends no token.
pub const NO_TOKEN: u32 = 0xFF_FFFF;

/// The number of nodes that the size field of a node can count up to, and one.
pub const SIZE_LIMIT: u32 = 0x100_0000;

/// What a token field with the value `raw` says.
pub open spec fn token_of_field(raw: u32) -> Option<TokenId> {
    if raw == NO_TOKEN {
        None
    } else {
        Some(raw)
    }
}

/// A node of a flat trie: the byte on the edge from its parent, the token that ends in it, and how
/// many nodes stand under it.
#[derive(Clone, Copy, PartialEq, Eq, Debug)]
pub struct TrieNode {
    bits: u32,
    bits2: u32,
}

impl TrieNode {
    /// The byte on the edge that leads to the node.
    pub closed spec fn label(self) -> u8 {
        (self.bits & 0xFF) as u8
    }

    /// The value of the token field.
    pub closed spec fn raw_token(self) -> u32 {
        self.bits >> 8
    }

    /// The token that ends in the node, if any.
    pub open spec fn token(self) -> Option<TokenId> {
        token_of_field(self.raw_token())
    }

    /// The number of nodes of the subtree, with the node itself.
    pub closed spec fn size(self) -> nat {
        (self.bits2 >> 8) as nat
    }

    /// How many levels up the walk goes that has finished the subtree and goes on with the next
    /// node.
    pub closed spec fn ups(self) -> nat {
        (self.bits2 & 0xFF) as nat
    }

    /// The two words of the node.
    pub closed spec fn raw(self) -> (u32, u32) {
        (self.bits, self.bits2)
    }

    /// The two words of the node.
    pub fn to_raw(&self) -> (r: (u32, u32))
        ensures
            r == self.raw(),
    {
        (self.bits, self.bits2)
    }

    /// The node with the given two words.
    pub fn from_raw(bits: u32, bits2: u32) -> (r: Self)
        ensures
            r.raw() == (bits, bits2),
            forall|node: TrieNode| #[trigger] node.raw() == (bits, bits2) ==> node == r,
    {
        TrieNode { bits, bits2 }
    }

    /// A node without a subtree size. Only the low 24 bits of `token_id` are kept.
    pub fn new(byte: u8, token_id: u32, num_parents: u8) -> (r: Self)
        ensures
            r.label() == byte,
            r.raw_token() == token_id & NO_TOKEN,
            r.size() == 0,
            r.ups() == num_parents,
    {
        let r = TrieNode {
            bits: ((token_id & NO_TOKEN) << 8) | (byte as u32),
            bits2: num_parents as u32,
        };
        assert(((((token_id & 0xFF_FFFF) << 8) | (byte as u32)) & 0xFF) as u8 == byte) by (bit_vector);
        assert((((token_id & 0xFF_FFFF) << 8) | (byte as u32)) >> 8 == token_id & 0xFF_FFFF) by (bit_vector);
        assert((num_parents as u32) >> 8 == 0 && (num_parents as u32) & 0xFF == num_parents) by (bit_vector);
        r
    }

    /// Sets the subtree size of a node that has none yet.
    pub(crate) fn set_subtree_size(&mut self, size: u32)
        requires
            old(self).size() == 0,
            size < SIZE_LIMIT,
        ensures
            final(self).label() == old(self).label(),
            final(self).raw_token() == old(self).raw_token(),
            final(self).size() == size,
            final(self).ups() == old(self).ups(),
    {
        let before: u32 = self.bits2;
        self.bits2 = self.bits2 | (size << 8);
        let after: u32 = self.bits2;
        assert(after >> 8 == size && after & 0xFF == before & 0xFF) by (bit_vector)
            requires
                before >> 8 == 0,
                size < 0x100_0000,
                after == before | (size << 8),
        ;
    }

    pub fn byte(&self) -> (r: u8)
        ensures
            r == self.label(),
    {
        (self.bits & 0xFF) as u8
    }

    pub fn token_id(&self) -> (r: Option<u32>)
        ensures
            r == self.token(),
    {
        let t: u32 = self.bits >> 8;
        if t == NO_TOKEN {
            None
        } else {
            Some(t)
        }
    }

    pub fn subtree_size(&self) -> (r: usize)
        ensures
            r == self.size(),
    {
        (self.bits2 >> 8) as usize
    }

    pub fn num_parents(&self) -> (r: usize)
        ensures
            r == self.ups(),
    {
        (self.bits2 & 0xFF) as usize
    }

    /// The levels to go up stay within their bits.
    pub(crate) proof fn lemma_ups_bound(self)
        ensures
            self.ups() <= 0xFF,
    {
        let bits2 = self.bits2;
        assert(bits2 & 0xFF <= 0xFF) by (bit_vector);
    }

    /// Nodes with equal fields are equal.
    pub(crate) proof fn lemma_equal(self, other: TrieNode)
        requires
            self.label() == other.label(),
            self.token() == other.token(),
            self.size() == other.size(),
            self.ups() == other.ups(),
        ensures
            self == other,
    {
        let bits = self.bits;
        let bits2 = self.bits2;
        let other_bits = other.bits;
        let other_bits2 = other.bits2;
        assert(bits == other_bits) by (bit_vector)
            requires
                (bits & 0xFF) as u8 == (other_bits & 0xFF) as u8,
                bits >> 8 == other_bits >> 8,
        ;
        assert(bits2 == other_bits2) by (bit_vector)
            requires
                bits2 & 0xFF == other_bits2 & 0xFF,
                bits2 >> 8 == other_bits2 >> 8,
        ;
    }
}

/// A node gives back what it was made from, where that fits its fields: a token number below the
/// reserved one, and no token for the reserved one.
pub proof fn law_fields_round_trip(node: TrieNode, token_id: u32)
    requires
        node.raw_token() == token_id & NO_TOKEN,
    ensures
        token_id < NO_TOKEN ==> node.token() == Some(token_id),
        token_id == NO_TOKEN ==> node.token() is None,
{
    assert(token_id <= 0xFF_FFFF ==> token_id & 0xFF_FFFF == token_id) by (bit_vector);
}

/// The first word of a node holds the token number above the byte, the second one the subtree size
/// above the levels to go up, each of the latter two in 8 bits.
pub proof fn law_words_hold_fields(node: TrieNode)
    ensures
        node.raw().0 == node.raw_token() * 256 + node.label(),
        node.raw().1 == node.size() * 256 + node.ups(),
        node.token() == if node.raw_token() == 16777215 {
            None
        } else {
            Some(node.raw_token())
        },
{
    let bits = node.bits;
    let bits2 = node.bits2;
    assert(bits == (bits >> 8) * 256 + ((bits & 0xFF) as u8)) by (bit_vector);
    assert(bits2 == (bits2 >> 8) * 256 + (bits2 & 0xFF)) by (bit_vector);
}

} // verus!
