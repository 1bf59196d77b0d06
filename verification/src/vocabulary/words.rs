//! Which trie belongs to a list of words.
use vstd::prelude::*;

use crate::primitives::TokenId;
use crate::vocabulary::node::{NO_TOKEN, SIZE_LIMIT};

verus! {

/// The byte strings of a list of byte vectors.
pub open spec fn word_list(words: Seq<Vec<u8>>) -> Seq<Seq<u8>> {
    Seq::new(words.len(), |i: int| words[i]@)
}

/// The bytes that continue `path` to a prefix of a word.
pub open spec fn next_bytes(words: Seq<Seq<u8>>, path: Seq<u8>) -> Set<u8> {
    Set::new(|b: u8| is_prefix(words, path.push(b)))
}

/// `path` is a prefix of a word.
pub open spec fn is_prefix(words: Seq<Seq<u8>>, path: Seq<u8>) -> bool {
    exists|i: int| 0 <= i < words.len() && path.is_prefix_of(#[trigger] words[i])
}

/// So many bytes continue `path` that its node has a child for every byte.
pub open spec fn is_dense(words: Seq<Seq<u8>>, path: Seq<u8>) -> bool {
    next_bytes(words, path).len() > 250
}

/// A node stands at `path`: at the empty path, at every prefix of a word, and at every byte behind
/// a path with very many continuations.
pub open spec fn is_node(words: Seq<Seq<u8>>, path: Seq<u8>) -> bool {
    ||| path.len() == 0
    ||| is_prefix(words, path)
    ||| is_dense(words, path.drop_last())
}

/// The number of the last one of `words` that equals `path`.
pub open spec fn last_number(words: Seq<Seq<u8>>, path: Seq<u8>) -> Option<TokenId>
    decreases words.len(),
{
    if words.len() == 0 {
        None
    } else if words.last() == path {
        Some((words.len() - 1) as TokenId)
    } else {
        last_number(words.drop_last(), path)
    }
}

/// The nodes of the trie of `words`, where word number `i` is the token with id `i`.
pub open spec fn trie_nodes(words: Seq<Seq<u8>>) -> Map<Seq<u8>, Option<TokenId>> {
    Map::new(|path: Seq<u8>| is_node(words, path), |path: Seq<u8>| last_number(words, path))
}

/// The bytes of `tokens` one after the other.
pub open spec fn spelled(words: Seq<Seq<u8>>, tokens: Seq<TokenId>) -> Seq<u8>
    decreases tokens.len(),
{
    if tokens.len() == 0 {
        Seq::empty()
    } else {
        words[tokens[0] as int] + spelled(words, tokens.skip(1))
    }
}

/// The number of bytes of all words.
pub open spec fn total_bytes(words: Seq<Seq<u8>>) -> nat
    decreases words.len(),
{
    if words.len() == 0 {
        0
    } else {
        total_bytes(words.drop_last()) + words.last().len()
    }
}

/// The node at `path` is the last child of its parent, in a trie with nodes at `paths`.
pub open spec fn is_last_child(paths: Set<Seq<u8>>, path: Seq<u8>) -> bool {
    forall|b: u8| b > path.last() ==> !#[trigger] paths.contains(path.drop_last().push(b))
}

/// How many levels up a walk goes behind the last node below `path`, in a trie with nodes at
/// `paths`.
pub open spec fn levels_up(paths: Set<Seq<u8>>, path: Seq<u8>) -> nat
    decreases path.len(),
{
    if path.len() == 0 {
        0
    } else if is_last_child(paths, path) {
        levels_up(paths, path.drop_last()) + 1
    } else {
        1
    }
}

/// The trie of `words` fits the fields of its nodes: 24 bits for token numbers and subtree sizes, 8
/// bits for the levels that a walk goes up.
pub open spec fn encodable(words: Seq<Seq<u8>>) -> bool {
    let paths = trie_nodes(words).dom();
    &&& words.len() <= NO_TOKEN
    &&& paths.finite()
    &&& paths.len() < SIZE_LIMIT
    &&& forall|path: Seq<u8>| #[trigger] paths.contains(path) ==> levels_up(paths, path) <= 0xFF
}

/// The last number of a word is a number of that word, and no later word equals it.
pub proof fn lemma_last_number(words: Seq<Seq<u8>>, path: Seq<u8>)
    requires
        words.len() <= u32::MAX,
    ensures
        match last_number(words, path) {
            Some(i) => {
                &&& i < words.len()
                &&& words[i as int] == path
                &&& forall|j: int| i < j < words.len() ==> #[trigger] words[j] != path
            },
            None => !words.contains(path),
        },
    decreases words.len(),
{
    if words.len() > 0 && words.last() != path {
        lemma_last_number(words.drop_last(), path);
        let shorter = words.drop_last();
        match last_number(shorter, path) {
            Some(i) => {
                assert forall|j: int| i < j < words.len() implies #[trigger] words[j] != path by {
                    if j < shorter.len() {
                        assert(shorter[j] == words[j]);
                    }
                }
            },
            None => {
                assert forall|j: int| 0 <= j < words.len() implies #[trigger] words[j] != path by {
                    if j < shorter.len() {
                        assert(shorter[j] == words[j]);
                        assert(shorter.contains(shorter[j]));
                    }
                }
            },
        }
    }
}

/// A byte string is in the trie of a list as the token with the number of its last place in the
/// list, and a byte string that is not in the list is no token.
pub proof fn law_words_are_tokens(words: Seq<Seq<u8>>, path: Seq<u8>)
    requires
        words.len() <= u32::MAX,
    ensures
        words.contains(path) ==> {
            &&& trie_nodes(words).contains_key(path)
            &&& trie_nodes(words)[path] is Some
            &&& words[trie_nodes(words)[path]->0 as int] == path
            &&& forall|j: int|
                trie_nodes(words)[path]->0 < j < words.len() ==> #[trigger] words[j] != path
        },
        !words.contains(path) && trie_nodes(words).contains_key(path) ==> trie_nodes(words)[path] is None,
{
    lemma_last_number(words, path);
    if words.contains(path) {
        let i = choose|i: int| 0 <= i < words.len() && words[i] == path;
        assert(path.is_prefix_of(words[i]));
    }
}

/// Different byte strings are different tokens.
pub proof fn law_tokens_distinct(words: Seq<Seq<u8>>, path: Seq<u8>, other: Seq<u8>)
    requires
        words.len() <= u32::MAX,
        last_number(words, path) is Some,
        last_number(words, path) == last_number(words, other),
    ensures
        path == other,
{
    lemma_last_number(words, path);
    lemma_last_number(words, other);
}

/// A longer list has all prefixes of a shorter one, and those of the added word.
pub(crate) proof fn lemma_prefix_push(words: Seq<Seq<u8>>, word: Seq<u8>, path: Seq<u8>)
    ensures
        is_prefix(words.push(word), path) == (is_prefix(words, path) || path.is_prefix_of(word)),
{
    let longer = words.push(word);
    if is_prefix(words, path) {
        let i = choose|i: int| 0 <= i < words.len() && path.is_prefix_of(#[trigger] words[i]);
        assert(longer[i] == words[i]);
    }
    if path.is_prefix_of(word) {
        assert(longer[words.len() as int] == word);
    }
    if is_prefix(longer, path) {
        let i = choose|i: int| 0 <= i < longer.len() && path.is_prefix_of(#[trigger] longer[i]);
        if i < words.len() {
            assert(longer[i] == words[i]);
        }
    }
}

} // verus!
