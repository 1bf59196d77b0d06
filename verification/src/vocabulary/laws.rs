//! What holds of the tries of all vocabularies.
use vstd::prelude::*;
use vstd::set_lib::{lemma_int_range, lemma_len_subset, lemma_len_union, lemma_map_size_bound, set_int_range};

use crate::primitives::TokenId;
use crate::vocabulary::flat::{contents, law_located_has_path, law_paths_ordered, lex_less, locate, path_at, well_formed};
use crate::vocabulary::node::{TrieNode, NO_TOKEN};
use crate::vocabulary::trie::{extends_to_token, greedy, lemma_listed_is_token, lemma_token_is_listed, longest_token, token_at, tokens_from};
use crate::vocabulary::words::{encodable, is_last_child, is_node, is_prefix, law_words_are_tokens, lemma_last_number, levels_up, next_bytes, spelled, total_bytes, trie_nodes, word_list};

verus! {

/// A walk over a trie visits exactly the nonempty byte strings that are tokens.
pub proof fn law_walk_visits_tokens(nodes: Seq<TrieNode>, path: Seq<u8>, token: TokenId)
    requires
        well_formed(nodes),
    ensures
        tokens_from(nodes, 1).contains((path, token)) <==> path.len() > 0 && token_at(contents(nodes), path) == Some(
            token,
        ),
{
    let all = tokens_from(nodes, 1);
    if all.contains((path, token)) {
        let k = choose|k: int| 0 <= k < all.len() && all[k] == (path, token);
        lemma_listed_is_token(nodes, 1, k);
    }
    if path.len() > 0 && token_at(contents(nodes), path) == Some(token) {
        law_located_has_path(nodes, path);
        let t = locate(nodes, path)->0;
        assert(path_at(nodes, 0).len() == 0);
        lemma_token_is_listed(nodes, 1, t);
    }
}

/// The tokens from a node on belong to nodes from there on.
proof fn lemma_walk_places(nodes: Seq<TrieNode>, p: int, k: int) -> (t: int)
    requires
        0 <= p,
        0 <= k < tokens_from(nodes, p).len(),
    ensures
        p <= t < nodes.len(),
        tokens_from(nodes, p)[k].0 == path_at(nodes, t),
    decreases nodes.len() - p,
{
    let later = tokens_from(nodes, p + 1);
    if nodes[p].token() is Some {
        if k == 0 {
            p
        } else {
            assert(tokens_from(nodes, p)[k] == later[k - 1]);
            lemma_walk_places(nodes, p + 1, k - 1)
        }
    } else {
        lemma_walk_places(nodes, p + 1, k)
    }
}

/// A walk visits tokens in the order of the nodes from `p` on.
proof fn lemma_walk_ordered(nodes: Seq<TrieNode>, p: int, k: int, l: int)
    requires
        well_formed(nodes),
        0 <= p,
        0 <= k < l < tokens_from(nodes, p).len(),
    ensures
        lex_less(tokens_from(nodes, p)[k].0, tokens_from(nodes, p)[l].0),
    decreases nodes.len() - p,
{
    let all = tokens_from(nodes, p);
    let later = tokens_from(nodes, p + 1);
    if nodes[p].token() is Some {
        assert(all[l] == later[l - 1]);
        if k == 0 {
            let t = lemma_walk_places(nodes, p + 1, l - 1);
            law_paths_ordered(nodes, p, t);
        } else {
            assert(all[k] == later[k - 1]);
            lemma_walk_ordered(nodes, p + 1, k - 1, l - 1);
        }
    } else {
        lemma_walk_ordered(nodes, p + 1, k, l);
    }
}

/// A walk visits the tokens in the lexicographic order of their bytes, so each of them once.
pub proof fn law_walk_ordered(nodes: Seq<TrieNode>, k: int, l: int)
    requires
        well_formed(nodes),
        0 <= k < l < tokens_from(nodes, 1).len(),
    ensures
        lex_less(tokens_from(nodes, 1)[k].0, tokens_from(nodes, 1)[l].0),
{
    lemma_walk_ordered(nodes, 1, k, l);
}

/// The longest token among the prefixes of up to `k` bytes is a token, and no longer one of them
/// is.
proof fn lemma_longest(nodes: Map<Seq<u8>, Option<TokenId>>, bytes: Seq<u8>, k: nat)
    ensures
        longest_token(nodes, bytes, k) <= k,
        longest_token(nodes, bytes, k) > 0 ==> token_at(
            nodes,
            bytes.take(longest_token(nodes, bytes, k) as int),
        ) is Some,
        forall|m: int|
            longest_token(nodes, bytes, k) < m <= k ==> token_at(nodes, #[trigger] bytes.take(m)) is None,
    decreases k,
{
    if k > 0 && token_at(nodes, bytes.take(k as int)) is None {
        lemma_longest(nodes, bytes, (k - 1) as nat);
    }
}

/// Cutting a byte string into tokens gives tokens that spell it from its start, as far as that
/// goes: none of the tokens fits what is left.
pub proof fn law_greedy_spells(words: Seq<Seq<u8>>, bytes: Seq<u8>)
    requires
        words.len() <= u32::MAX,
    ensures
        ({
            let done = spelled(words, greedy(trie_nodes(words), bytes));
            let rest = bytes.skip(done.len() as int);
            &&& done.is_prefix_of(bytes)
            &&& forall|m: int| 0 < m <= rest.len() ==> !words.contains(#[trigger] rest.take(m))
        }),
    decreases bytes.len(),
{
    let nodes = trie_nodes(words);
    let k = longest_token(nodes, bytes, bytes.len());
    lemma_longest(nodes, bytes, bytes.len());
    if k > 0 {
        let first = bytes.take(k as int);
        let behind = bytes.skip(k as int);
        lemma_last_number(words, first);
        law_greedy_spells(words, behind);
        let token = token_at(nodes, first)->0;
        assert((seq![token] + greedy(nodes, behind)).skip(1) =~= greedy(nodes, behind));
        let done = spelled(words, greedy(nodes, bytes));
        assert(done == first + spelled(words, greedy(nodes, behind)));
        assert(bytes.skip(done.len() as int) =~= behind.skip(spelled(words, greedy(nodes, behind)).len() as int));
        assert(done =~= bytes.take(done.len() as int));
    } else {
        assert(bytes.skip(0) =~= bytes);
        assert(spelled(words, greedy(nodes, bytes)) =~= Seq::<u8>::empty());
        assert forall|m: int| 0 < m <= bytes.len() implies !words.contains(#[trigger] bytes.take(m)) by {
            law_words_are_tokens(words, bytes.take(m));
        }
    }
}

/// The paths one byte behind `path`.
spec fn one_behind(path: Seq<u8>) -> Set<Seq<u8>> {
    set_int_range(0, 256).map(|b: int| path.push(b as u8))
}

/// The paths one byte behind the prefixes of `word` of less than `k` bytes.
spec fn behind_word(word: Seq<u8>, k: nat) -> Set<Seq<u8>>
    decreases k,
{
    if k == 0 {
        Set::empty()
    } else {
        behind_word(word, (k - 1) as nat).union(one_behind(word.take(k - 1)))
    }
}

/// The empty path, and the paths one byte behind the proper prefixes of words.
spec fn behind_words(words: Seq<Seq<u8>>) -> Set<Seq<u8>>
    decreases words.len(),
{
    if words.len() == 0 {
        Set::empty().insert(Seq::empty())
    } else {
        behind_words(words.drop_last()).union(behind_word(words.last(), words.last().len()))
    }
}

proof fn lemma_behind_word(word: Seq<u8>, k: nat)
    ensures
        behind_word(word, k).finite(),
        behind_word(word, k).len() <= 256 * k,
        forall|j: int, b: u8| 0 <= j < k ==> behind_word(word, k).contains(#[trigger] word.take(j).push(b)),
    decreases k,
{
    if k > 0 {
        lemma_behind_word(word, (k - 1) as nat);
        let path = word.take(k - 1);
        lemma_int_range(0, 256);
        lemma_map_size_bound(set_int_range(0, 256), one_behind(path), |b: int| path.push(b as u8));
        lemma_len_union(behind_word(word, (k - 1) as nat), one_behind(path));
        assert forall|j: int, b: u8| 0 <= j < k implies behind_word(word, k).contains(#[trigger] word.take(j).push(b)) by {
            if j == k - 1 {
                assert(set_int_range(0, 256).contains(b as int));
                assert(one_behind(path).contains(path.push(b as int as u8)));
            }
        }
    }
}

proof fn lemma_behind_words(words: Seq<Seq<u8>>)
    ensures
        behind_words(words).finite(),
        behind_words(words).len() <= 1 + 256 * total_bytes(words),
        behind_words(words).contains(Seq::empty()),
        forall|i: int, j: int, b: u8|
            0 <= i < words.len() && 0 <= j < words[i].len() ==> behind_words(words).contains(
                #[trigger] words[i].take(j).push(b),
            ),
    decreases words.len(),
{
    if words.len() > 0 {
        let fewer = words.drop_last();
        let last = words.last();
        lemma_behind_words(fewer);
        lemma_behind_word(last, last.len());
        lemma_len_union(behind_words(fewer), behind_word(last, last.len()));
        assert forall|i: int, j: int, b: u8| 0 <= i < words.len() && 0 <= j < words[i].len() implies behind_words(
            words,
        ).contains(#[trigger] words[i].take(j).push(b)) by {
            if i < fewer.len() {
                assert(fewer[i] == words[i]);
                assert(behind_words(fewer).contains(fewer[i].take(j).push(b)));
            } else {
                assert(behind_word(last, last.len()).contains(last.take(j).push(b)));
            }
        }
    } else {
        assert(behind_words(words).len() == 1);
    }
}

proof fn lemma_levels_bound(paths: Set<Seq<u8>>, path: Seq<u8>)
    ensures
        levels_up(paths, path) <= path.len(),
    decreases path.len(),
{
    if path.len() > 0 {
        lemma_levels_bound(paths, path.drop_last());
    }
}

/// A node that is not the root stands one byte behind a proper prefix of a word.
proof fn lemma_node_behind_prefix(words: Seq<Seq<u8>>, path: Seq<u8>) -> (i: int)
    requires
        is_node(words, path),
        path.len() > 0,
    ensures
        0 <= i < words.len(),
        path.len() <= words[i].len(),
        path.drop_last() == words[i].take(path.len() - 1),
{
    let short = path.drop_last();
    if is_prefix(words, path) {
        let i = choose|i: int| 0 <= i < words.len() && path.is_prefix_of(#[trigger] words[i]);
        assert(short =~= words[i].take(path.len() - 1));
        i
    } else {
        let bytes = next_bytes(words, short);
        assert(bytes.len() > 0);
        let b = bytes.choose();
        assert(bytes.contains(b)) by {
            if forall|c: u8| !bytes.contains(c) {
                assert(bytes =~= Set::empty());
            }
        }
        let i = choose|i: int| 0 <= i < words.len() && short.push(b).is_prefix_of(#[trigger] words[i]);
        assert(short =~= words[i].take(path.len() - 1));
        i
    }
}

/// A vocabulary of up to 65535 bytes with words of up to 255 bytes fits a trie.
pub proof fn law_small_vocabulary_fits(words: Seq<Seq<u8>>)
    requires
        words.len() <= NO_TOKEN,
        total_bytes(words) <= 0xFFFF,
        forall|i: int| 0 <= i < words.len() ==> (#[trigger] words[i]).len() <= 0xFF,
    ensures
        encodable(words),
{
    let paths = trie_nodes(words).dom();
    let all = behind_words(words);
    lemma_behind_words(words);
    assert(paths.subset_of(all)) by {
        assert forall|path: Seq<u8>| paths.contains(path) implies all.contains(path) by {
            if path.len() > 0 {
                let i = lemma_node_behind_prefix(words, path);
                assert(path =~= words[i].take(path.len() - 1).push(path.last()));
            } else {
                assert(path =~= Seq::empty());
            }
        }
    }
    lemma_len_subset(paths, all);
    assert forall|path: Seq<u8>| #[trigger] paths.contains(path) implies levels_up(paths, path) <= 0xFF by {
        lemma_levels_bound(paths, path);
        if path.len() > 0 {
            let i = lemma_node_behind_prefix(words, path);
        }
    }
}

/// The byte strings of a list of vectors are the contents of the vectors, one by one.
pub proof fn law_word_list(words: Seq<Vec<u8>>)
    ensures
        word_list(words).len() == words.len(),
        forall|i: int| 0 <= i < words.len() ==> #[trigger] word_list(words)[i] == words[i]@,
{
}

/// Looking a byte string up gives the number of the last word that equals it, and nothing exactly
/// where no word does.
pub proof fn law_lookup_finds_last_word(words: Seq<Seq<u8>>, bytes: Seq<u8>)
    requires
        words.len() <= u32::MAX,
    ensures
        match token_at(trie_nodes(words), bytes) {
            Some(token) => {
                &&& token < words.len()
                &&& words[token as int] == bytes
                &&& forall|j: int| token < j < words.len() ==> #[trigger] words[j] != bytes
            },
            None => forall|j: int| 0 <= j < words.len() ==> #[trigger] words[j] != bytes,
        },
{
    lemma_last_number(words, bytes);
    law_words_are_tokens(words, bytes);
    if token_at(trie_nodes(words), bytes) is None {
        assert forall|j: int| 0 <= j < words.len() implies #[trigger] words[j] != bytes by {
            if words[j] == bytes {
                assert(words.contains(bytes));
            }
        }
    }
}

/// A lookup gives what the node behind the bytes says, and nothing where there is no node.
pub proof fn law_lookup_reads_node(nodes: Map<Seq<u8>, Option<TokenId>>, bytes: Seq<u8>)
    ensures
        nodes.contains_key(bytes) ==> token_at(nodes, bytes) == nodes[bytes],
        !nodes.contains_key(bytes) ==> token_at(nodes, bytes) is None,
{
}

/// Nodes stand at the empty byte string, at every front of a word, and at every byte behind a front
/// that more than 250 different bytes continue.
pub proof fn law_nodes_are_fronts(words: Seq<Seq<u8>>, path: Seq<u8>)
    ensures
        trie_nodes(words).contains_key(path) <==> {
            ||| path.len() == 0
            ||| exists|i: int| 0 <= i < words.len() && path.is_prefix_of(#[trigger] words[i])
            ||| Set::new(
                |b: u8|
                    exists|i: int|
                        0 <= i < words.len() && path.drop_last().push(b).is_prefix_of(#[trigger] words[i]),
            ).len() > 250
        },
{
    assert(next_bytes(words, path.drop_last()) =~= Set::new(
        |b: u8|
            exists|i: int|
                0 <= i < words.len() && path.drop_last().push(b).is_prefix_of(#[trigger] words[i]),
    ));
}

/// A byte string can be extended to a token exactly if it is the front of a longer word.
pub proof fn law_extensions_are_longer_words(words: Seq<Seq<u8>>, path: Seq<u8>)
    requires
        words.len() <= u32::MAX,
    ensures
        extends_to_token(trie_nodes(words), path) <==> exists|i: int|
            0 <= i < words.len() && path.len() < words[i].len() && path.is_prefix_of(#[trigger] words[i]),
{
    let nodes = trie_nodes(words);
    if extends_to_token(nodes, path) {
        let more = choose|more: Seq<u8>| more.len() > 0 && #[trigger] token_at(nodes, path + more) is Some;
        law_lookup_finds_last_word(words, path + more);
        let i = token_at(nodes, path + more)->0 as int;
        assert(path.is_prefix_of(words[i]));
    }
    if exists|i: int| 0 <= i < words.len() && path.len() < words[i].len() && path.is_prefix_of(#[trigger] words[i]) {
        let i = choose|i: int|
            0 <= i < words.len() && path.len() < words[i].len() && path.is_prefix_of(#[trigger] words[i]);
        let more = words[i].skip(path.len() as int);
        assert(path + more =~= words[i]);
        law_lookup_finds_last_word(words, words[i]);
        assert(token_at(nodes, path + more) is Some);
    }
}

/// The bytes of tokens are those of the words with their numbers, one after the other.
pub proof fn law_spelled_concat(words: Seq<Seq<u8>>, tokens: Seq<TokenId>, more: Seq<TokenId>, token: TokenId)
    ensures
        spelled(words, Seq::empty()) == Seq::<u8>::empty(),
        spelled(words, seq![token]) == words[token as int],
        spelled(words, tokens + more) == spelled(words, tokens) + spelled(words, more),
    decreases tokens.len(),
{
    reveal_with_fuel(spelled, 2);
    assert(seq![token].skip(1) =~= Seq::empty());
    assert(words[token as int] + Seq::<u8>::empty() =~= words[token as int]);
    if tokens.len() == 0 {
        assert(tokens + more =~= more);
        assert(Seq::<u8>::empty() + spelled(words, more) =~= spelled(words, more));
    } else {
        law_spelled_concat(words, tokens.skip(1), more, token);
        assert((tokens + more).skip(1) =~= tokens.skip(1) + more);
        assert((tokens + more)[0] == tokens[0]);
        assert(words[tokens[0] as int] + (spelled(words, tokens.skip(1)) + spelled(words, more)) =~= spelled(
            words,
            tokens,
        ) + spelled(words, more));
    }
}

/// Each time the longest token is cut off: every token of the result is a word that what is left
/// starts with, no longer word is one, and no later word has the same bytes.
pub proof fn law_greedy_takes_longest(words: Seq<Seq<u8>>, bytes: Seq<u8>, i: int)
    requires
        words.len() <= u32::MAX,
        0 <= i < greedy(trie_nodes(words), bytes).len(),
    ensures
        ({
            let tokens = greedy(trie_nodes(words), bytes);
            let left = bytes.skip(spelled(words, tokens.take(i)).len() as int);
            &&& tokens[i] < words.len()
            &&& words[tokens[i] as int].len() > 0
            &&& words[tokens[i] as int].is_prefix_of(left)
            &&& forall|j: int|
                0 <= j < words.len() && (#[trigger] words[j]).is_prefix_of(left)
                    ==> words[j].len() <= words[tokens[i] as int].len()
            &&& forall|j: int|
                tokens[i] < j < words.len() ==> #[trigger] words[j] != words[tokens[i] as int]
        }),
    decreases bytes.len(),
{
    let nodes = trie_nodes(words);
    let tokens = greedy(nodes, bytes);
    let k = longest_token(nodes, bytes, bytes.len());
    lemma_longest(nodes, bytes, bytes.len());
    let first = bytes.take(k as int);
    let behind = bytes.skip(k as int);
    law_lookup_finds_last_word(words, first);
    if i == 0 {
        assert(tokens.take(0) =~= Seq::empty());
        assert(bytes.skip(0) =~= bytes);
        assert forall|j: int|
            0 <= j < words.len() && (#[trigger] words[j]).is_prefix_of(bytes) implies words[j].len()
            <= words[tokens[0] as int].len() by {
            let m = words[j].len() as int;
            assert(bytes.take(m) =~= words[j]);
            law_lookup_finds_last_word(words, bytes.take(m));
        }
    } else {
        let rest = greedy(nodes, behind);
        law_greedy_takes_longest(words, behind, i - 1);
        assert(tokens == seq![tokens[0]] + rest);
        assert(tokens.take(i) =~= seq![tokens[0]] + rest.take(i - 1));
        law_spelled_concat(words, seq![tokens[0]], rest.take(i - 1), tokens[0]);
        law_greedy_spells(words, behind);
        lemma_spelled_front(words, rest, i - 1);
        assert(bytes.skip(spelled(words, tokens.take(i)).len() as int) =~= behind.skip(
            spelled(words, rest.take(i - 1)).len() as int,
        ));
        assert(tokens[i] == rest[i - 1]);
    }
}

/// The first tokens spell no more bytes than all of them.
proof fn lemma_spelled_front(words: Seq<Seq<u8>>, tokens: Seq<TokenId>, i: int)
    requires
        0 <= i <= tokens.len(),
    ensures
        spelled(words, tokens.take(i)).len() <= spelled(words, tokens).len(),
{
    assert(tokens =~= tokens.take(i) + tokens.skip(i));
    law_spelled_concat(words, tokens.take(i), tokens.skip(i), 0);
}

/// The number of bytes of all words is the sum of their lengths.
pub proof fn law_total_bytes(words: Seq<Seq<u8>>, more: Seq<Seq<u8>>, word: Seq<u8>)
    ensures
        total_bytes(seq![word]) == word.len(),
        total_bytes(words + more) == total_bytes(words) + total_bytes(more),
    decreases more.len(),
{
    reveal_with_fuel(total_bytes, 2);
    assert(seq![word].drop_last() =~= Seq::empty());
    if more.len() == 0 {
        assert(words + more =~= words);
    } else {
        law_total_bytes(words, more.drop_last(), word);
        assert((words + more).drop_last() =~= words + more.drop_last());
        assert((words + more).last() == more.last());
    }
}

/// How many levels up a walk goes behind the last node below a path: past every front of the path
/// that is the last child of its parent, up to and past the first one that is not, or up to the
/// root. A front is a last child exactly if no node stands at its parent's path followed by a
/// greater byte.
pub proof fn law_levels_up(paths: Set<Seq<u8>>, path: Seq<u8>, j: int)
    requires
        0 < j <= path.len(),
    ensures
        1 <= levels_up(paths, path) <= path.len(),
        j > path.len() - levels_up(paths, path) + 1 ==> forall|b: u8|
            b > path[j - 1] ==> !#[trigger] paths.contains(path.take(j - 1).push(b)),
        levels_up(paths, path) < path.len() && j == path.len() - levels_up(paths, path) + 1 ==> exists|b: u8|
            b > path[j - 1] && #[trigger] paths.contains(path.take(j - 1).push(b)),
    decreases path.len(),
{
    let short = path.drop_last();
    assert(path.take(path.len() - 1) =~= short);
    if short.len() > 0 {
        let i = if j <= short.len() {
            j
        } else {
            1
        };
        law_levels_up(paths, short, i);
        assert(short.take(i - 1) =~= path.take(i - 1));
        assert(short[i - 1] == path[i - 1]);
    }
    if !is_last_child(paths, path) {
        let b = choose|b: u8| b > path.last() && #[trigger] paths.contains(short.push(b));
        assert(paths.contains(path.take(path.len() - 1).push(b)));
    }
}

/// A vocabulary fits a trie exactly if it has at most 16777215 words, the trie has less than
/// 16777216 nodes, and no walk goes up more than 255 levels at once.
pub proof fn law_fitting_vocabularies(words: Seq<Seq<u8>>)
    ensures
        encodable(words) <==> {
            &&& words.len() <= 16777215
            &&& trie_nodes(words).dom().finite()
            &&& trie_nodes(words).dom().len() < 16777216
            &&& forall|path: Seq<u8>| #[trigger]
                trie_nodes(words).contains_key(path) ==> levels_up(trie_nodes(words).dom(), path) <= 255
        },
{
    let paths = trie_nodes(words).dom();
    if encodable(words) {
        assert forall|path: Seq<u8>| #[trigger] trie_nodes(words).contains_key(path) implies levels_up(paths, path)
            <= 255 by {
            assert(paths.contains(path));
        }
    } else if words.len() <= 16777215 && paths.finite() && paths.len() < 16777216 && forall|path: Seq<u8>| #[trigger]
        trie_nodes(words).contains_key(path) ==> levels_up(paths, path) <= 255 {
        assert forall|path: Seq<u8>| #[trigger] paths.contains(path) implies levels_up(paths, path) <= 0xFF by {
            assert(trie_nodes(words).contains_key(path));
        }
    }
}

} // verus!
