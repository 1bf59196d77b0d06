//! The tokens of a language model.
pub mod builder;
pub mod class_groups;
pub mod flat;
pub mod laws;
pub mod layout;
pub mod node;
pub mod trie;
pub mod words;

use vstd::prelude::*;

use crate::error::{Error, Result};
use crate::primitives::TokenId;
use crate::vocabulary::node::NO_TOKEN;
use crate::vocabulary::trie::{flat_trie, TokenBytes, Trie};
use crate::vocabulary::words::{encodable, trie_nodes, word_list};

verus! {

/// `words` with the bytes `bytes` for token `id`. Ids that were skipped get no bytes.
pub open spec fn with_word(words: Seq<Seq<u8>>, id: TokenId, bytes: Seq<u8>) -> Seq<Seq<u8>> {
    Seq::new(
        if id < words.len() {
            words.len()
        } else {
            (id + 1) as nat
        },
        |i: int|
            if i == id {
                bytes
            } else if i < words.len() {
                words[i]
            } else {
                Seq::empty()
            },
    )
}

/// Giving a token bytes changes no other token. Tokens between the former last one and it have no
/// bytes.
pub proof fn law_word_is_set(words: Seq<Seq<u8>>, id: TokenId, bytes: Seq<u8>, other: int)
    ensures
        ({
            let after = with_word(words, id, bytes);
            &&& after.len() >= words.len()
            &&& after.len() > id
            &&& after.len() == words.len() || after.len() == id + 1
            &&& after[id as int] == bytes
            &&& 0 <= other < words.len() && other != id ==> after[other] == words[other]
            &&& words.len() <= other < after.len() && other != id ==> after[other].len() == 0
        }),
{
}

/// The bytes of the tokens of a language model, and the token that ends a sequence.
#[derive(Clone, Debug)]
pub struct Vocabulary {
    eos_token_id: TokenId,
    /// The bytes of the tokens, by token id.
    words: Vec<Vec<u8>>,
}

impl Vocabulary {
    /// The bytes of the tokens, by token id.
    pub closed spec fn words(&self) -> Seq<Seq<u8>> {
        word_list(self.words@)
    }

    /// The token that ends a sequence.
    pub closed spec fn eos(&self) -> TokenId {
        self.eos_token_id
    }

    /// Token ids fit the nodes of a trie, and the token that ends a sequence has no bytes.
    pub open spec fn wf(&self) -> bool {
        &&& self.words().len() <= NO_TOKEN
        &&& self.eos() < self.words().len() ==> self.words()[self.eos() as int].len() == 0
    }

    /// A vocabulary that holds only the token that ends a sequence.
    pub fn new(eos_token_id: TokenId) -> (r: Self)
        ensures
            r.wf(),
            r.words() == Seq::<Seq<u8>>::empty(),
            r.eos() == eos_token_id,
    {
        let r = Vocabulary { eos_token_id, words: Vec::new() };
        assert(r.words() =~= Seq::<Seq<u8>>::empty());
        r
    }

    /// Gives token `id` the bytes of `token`, in place of those that it had. The token that ends a
    /// sequence cannot be given any.
    pub fn try_insert<T: TokenBytes>(&mut self, token: T, id: TokenId) -> (r: Result<()>)
        requires
            old(self).wf(),
        ensures
            final(self).wf(),
            final(self).eos() == old(self).eos(),
            match r {
                Ok(_) => {
                    &&& id != old(self).eos()
                    &&& id < NO_TOKEN
                    &&& final(self).words() == with_word(old(self).words(), id, token.bytes())
                },
                Err(Error::EOSTokenDisallowed) => {
                    &&& id == old(self).eos()
                    &&& final(self).words() == old(self).words()
                },
                Err(Error::TokenIdTooLarge) => {
                    &&& id != old(self).eos()
                    &&& id >= NO_TOKEN
                    &&& final(self).words() == old(self).words()
                },
                Err(_) => false,
            },
    {
        if id == self.eos_token_id {
            return Err(Error::EOSTokenDisallowed);
        }
        if id >= NO_TOKEN {
            return Err(Error::TokenIdTooLarge);
        }
        let ghost before = self.words@;
        while self.words.len() <= id as usize
            invariant
                id < NO_TOKEN,
                self.eos_token_id == old(self).eos_token_id,
                before.len() <= self.words@.len(),
                self.words@.len() <= before.len() || self.words@.len() <= id + 1,
                self.words@.take(before.len() as int) == before,
                forall|i: int| before.len() <= i < self.words@.len() ==> (#[trigger] self.words@[i])@.len() == 0,
            decreases id + 1 - self.words@.len(),
        {
            self.words.push(Vec::new());
            assert(self.words@.take(before.len() as int) =~= before);
        }
        let ghost grown = self.words@;
        let mut bytes: Vec<u8> = Vec::new();
        bytes.extend_from_slice(token.as_byte_slice());
        self.words[id as usize] = bytes;
        proof {
            assert(bytes@ =~= token.bytes());
            assert forall|i: int| 0 <= i < self.words@.len() implies #[trigger] self.words()[i] == with_word(
                old(self).words(),
                id,
                token.bytes(),
            )[i] by {
                if i != id {
                    assert(self.words@[i] == grown[i]);
                    if i < before.len() {
                        assert(grown.take(before.len() as int)[i] == grown[i]);
                    } else {
                        assert(grown[i]@ =~= Seq::<u8>::empty());
                    }
                }
            }
            assert(self.words() =~= with_word(old(self).words(), id, token.bytes()));
        }
        Ok(())
    }

    /// The token that ends a sequence.
    pub fn eos_token_id(&self) -> (r: TokenId)
        ensures
            r == self.eos(),
    {
        self.eos_token_id
    }

    /// The greatest token id that was inserted, if there is one.
    pub fn max_token_id(&self) -> (r: Option<TokenId>)
        requires
            self.wf(),
        ensures
            r == if self.words().len() == 0 {
                None
            } else {
                Some((self.words().len() - 1) as TokenId)
            },
    {
        if self.words.len() == 0 {
            None
        } else {
            Some((self.words.len() - 1) as TokenId)
        }
    }

    /// The trie of the tokens, if it fits the fields of its nodes.
    pub fn trie(&self) -> (r: Option<Trie>)
        ensures
            r is Some == encodable(self.words()),
            r matches Some(trie) ==> {
                &&& trie.wf()
                &&& trie@ == trie_nodes(self.words())
                &&& trie.layout() == flat_trie(self.words())
            },
    {
        Trie::try_from_tokens(&self.words, self.eos_token_id)
    }
}

} // verus!
