use outlines_core::vocabulary::builder::HashTrie;
use outlines_core::vocabulary::node::TrieNode;
use outlines_core::vocabulary::trie::{NodeChildren, NodeRef, Trie, TrieDecodeCtx};

fn trie_of(words: &[&str]) -> Trie {
    let words: Vec<Vec<u8>> = words.iter().map(|w| w.as_bytes().to_vec()).collect();
    Trie::try_from_tokens(&words, 0).expect("small trie")
}

fn bytes_of(mut children: NodeChildren) -> Vec<u8> {
    let mut bytes = Vec::new();
    while let Some(n) = children.next() {
        bytes.push(n.byte());
    }
    bytes
}

#[test]
fn node_fields() {
    let n = TrieNode::new(7, 9, 3);
    assert_eq!(n.byte(), 7);
    assert_eq!(n.token_id(), Some(9));
    assert_eq!(n.num_parents(), 3);
    assert_eq!(n.subtree_size(), 0);
    assert_eq!(TrieNode::new(7, 0xFF_FFFF, 3).token_id(), None);
    assert_eq!(TrieNode::new(7, 0x100_0005, 3).token_id(), Some(5));
    assert_eq!(n.to_raw(), (9 << 8 | 7, 3));
    assert_eq!(TrieNode::from_raw(9 << 8 | 7, 3), n);
}

#[test]
fn words_are_found() {
    let trie = trie_of(&["a", "ab", "b", "abcd"]);
    assert_eq!(trie.get("a"), Some(0));
    assert_eq!(trie.get("ab"), Some(1));
    assert_eq!(trie.get("b"), Some(2));
    assert_eq!(trie.get("abcd"), Some(3));
    assert_eq!(trie.get("abc"), None);
    assert_eq!(trie.get("c"), None);
    assert_eq!(trie.get(""), None);
    assert_eq!(trie.get(vec![97u8]), Some(0));
    assert_eq!(trie.token_id_at_bytes(b"ab"), Some(1));
    assert_eq!(trie.get(b"abcd"), Some(3));
    assert_eq!(trie.get(&b"b"[..]), Some(2));
    assert_eq!(trie.get(String::from("ab")), Some(1));
    assert_eq!(trie.get(&String::from("ab")), Some(1));
    assert_eq!(trie.get(&vec![98u8]), Some(2));
    let accents = trie_of(&["\u{e9}", "\u{1F607}"]);
    assert_eq!(accents.get(vec![0xC3u8, 0xA9]), Some(0));
    assert_eq!(accents.get("\u{1F607}"), Some(1));
}

#[test]
fn last_of_equal_words_counts() {
    let trie = trie_of(&["x", "y", "x"]);
    assert_eq!(trie.get("x"), Some(2));
    assert_eq!(trie.get("y"), Some(1));
}

#[test]
fn empty_word_ends_in_the_root() {
    let trie = trie_of(&["x", "", "y"]);
    assert_eq!(trie.get(""), Some(1));
    assert_eq!(trie.root().token_id(), Some(1));
}

#[test]
fn built_with_the_last_token() {
    let words = vec![b"hi".to_vec(), b"ho".to_vec()];
    let trie = Trie::from_tokens(&words, 1);
    assert_eq!(trie.get("hi"), Some(0));
    assert_eq!(trie.get("ho"), Some(1));
    assert_eq!(trie.node_count(), 4);
}

#[test]
fn nodes_stand_in_preorder() {
    let trie = trie_of(&["b", "ab", "a", "ac"]);
    let nodes = trie.nodes();
    let bytes: Vec<u8> = nodes.iter().map(|n| n.byte()).collect();
    let sizes: Vec<usize> = nodes.iter().map(|n| n.subtree_size()).collect();
    let parents: Vec<usize> = nodes.iter().map(|n| n.num_parents()).collect();
    assert_eq!(bytes, vec![255, 97, 98, 99, 98]);
    assert_eq!(sizes, vec![5, 3, 1, 1, 1]);
    assert_eq!(parents, vec![0, 1, 1, 2, 1]);
}

#[test]
fn children_stand_in_order() {
    let trie = trie_of(&["c", "b", "ax", "a", "ay"]);
    assert_eq!(bytes_of(trie.children(&trie.root())), b"abc".to_vec());
    let a = trie.child_at_byte(&trie.root(), b'a').expect("a");
    assert_eq!(a.token_id(), Some(3));
    assert_eq!(a.subtree_size(), 3);
    assert_eq!(bytes_of(trie.children(&a)), b"xy".to_vec());
    assert!(trie.child_at_byte(&a, b'z').is_none());
    assert_eq!(bytes_of(trie.children_from_to(4, 6)), b"bc".to_vec());
    assert_eq!(bytes_of(trie.children_from_to(6, 6)), Vec::<u8>::new());
    assert_eq!(bytes_of(trie.children_from_to(90, 80)), Vec::<u8>::new());
    assert_eq!(a.num_parents(), 1);
    assert_eq!(trie.child_at_byte(&a, b'y').expect("ay").num_parents(), 2);
}

#[test]
fn descent_along_bytes() {
    let trie = trie_of(&["abc", "abd"]);
    let ab: NodeRef = trie.child_at_bytes(trie.root(), b"ab").expect("ab");
    assert_eq!(ab.byte(), b'b');
    assert_eq!(ab.token_id(), None);
    assert_eq!(trie.child_at_bytes(ab, b"d").and_then(|n| n.token_id()), Some(1));
    assert!(trie.child_at_bytes(ab, b"dd").is_none());
    assert_eq!(trie.child_at_bytes(ab, b""), Some(ab));
}

#[test]
fn dense_nodes_have_all_children() {
    let words: Vec<Vec<u8>> = (0..251u16).map(|b| vec![b as u8]).collect();
    let trie = Trie::try_from_tokens(&words, 0).expect("dense trie");
    assert_eq!(trie.node_count(), 257);
    assert_eq!(trie.token_id_at_bytes(&[250]), Some(250));
    assert_eq!(trie.token_id_at_bytes(&[251]), None);
    assert!(trie.child_at_bytes(trie.root(), &[255]).is_some());
    let words: Vec<Vec<u8>> = (0..250u16).map(|b| vec![b as u8]).collect();
    assert_eq!(Trie::try_from_tokens(&words, 0).expect("trie").node_count(), 251);
}

#[test]
fn longest_tokens_are_cut_off() {
    let trie = trie_of(&["a", "ab", "b", "c", "abcd"]);
    assert_eq!(trie.greedy_tokenize(b"abc"), vec![1, 3]);
    assert_eq!(trie.greedy_tokenize(b"abcd"), vec![4]);
    assert_eq!(trie.greedy_tokenize(b"abcab"), vec![1, 3, 1]);
    assert_eq!(trie.greedy_tokenize(b"aab"), vec![0, 1]);
    assert_eq!(trie.greedy_tokenize(b""), Vec::<u32>::new());
    let trie = trie_of(&["a", "abc", "b"]);
    assert_eq!(trie.greedy_tokenize(b"ab"), vec![0, 2]);
    assert_eq!(trie.greedy_tokenize(b"abcab"), vec![1, 0, 2]);
    assert_eq!(trie.greedy_tokenize(b"aq"), vec![0]);
}

#[test]
fn extensions_of_every_length_count() {
    let trie = trie_of(&["a", "abcd", "x"]);
    assert!(trie.has_extensions(b""));
    assert!(trie.has_extensions(b"a"));
    assert!(trie.has_extensions(b"abc"));
    assert!(!trie.has_extensions(b"abcd"));
    assert!(!trie.has_extensions(b"x"));
    assert!(!trie.has_extensions(b"q"));
}

#[test]
fn every_token_is_visited() {
    let trie = trie_of(&["b", "ab", "a", "acd", "", "ba"]);
    let mut visited: Vec<(Vec<u8>, u32)> = Vec::new();
    trie.for_each(|bytes: &[u8], token: u32| visited.push((bytes.to_vec(), token)));
    let expected: Vec<(Vec<u8>, u32)> = vec![
        (b"a".to_vec(), 2),
        (b"ab".to_vec(), 1),
        (b"acd".to_vec(), 3),
        (b"b".to_vec(), 0),
        (b"ba".to_vec(), 5),
    ];
    assert_eq!(visited, expected);
}

#[test]
fn walk_visits_the_same_tokens() {
    let trie = trie_of(&["b", "ab", "a", "acd"]);
    let mut walk = trie.walk();
    let mut tokens = Vec::new();
    while let Some(token) = walk.advance() {
        tokens.push((walk.bytes().to_vec(), token));
    }
    assert_eq!(
        tokens,
        vec![(b"a".to_vec(), 2), (b"ab".to_vec(), 1), (b"acd".to_vec(), 3), (b"b".to_vec(), 0)]
    );
}

#[test]
fn tries_that_do_not_fit_are_refused() {
    assert!(Trie::try_from_tokens(&vec![vec![1u8; 256]], 0).is_none());
    assert!(Trie::try_from_tokens(&vec![vec![1u8; 255]], 0).is_some());
    assert!(Trie::try_from_tokens(&vec![vec![1u8; 300], vec![2u8]], 0).is_none());
}

#[test]
fn trie_from_its_nodes() {
    let trie = trie_of(&["b", "ab", "a", "ac"]);
    let again = Trie::from_nodes(trie.nodes().to_vec());
    assert_eq!(again, Some(trie.clone()));
    assert!(Trie::from_nodes(Vec::new()).is_none());
    let mut swapped = trie.nodes().to_vec();
    swapped.swap(2, 3);
    assert!(Trie::from_nodes(swapped).is_none());
    let mut cut = trie.nodes().to_vec();
    cut.pop();
    assert!(Trie::from_nodes(cut).is_none());
    let mut resized = trie.nodes().to_vec();
    let (bits, bits2) = resized[2].to_raw();
    resized[2] = TrieNode::from_raw(bits, bits2 + (1 << 8));
    assert!(Trie::from_nodes(resized).is_none());
}

#[test]
fn equal_contents_are_stored_equally() {
    assert_eq!(trie_of(&["x", "y", "x"]), trie_of(&["y", "y", "x"]));
    assert_ne!(trie_of(&["x", "y"]), trie_of(&["y", "x"]));
}

#[test]
fn tokens_are_visited_in_lexicographic_order() {
    let trie = trie_of(&["zz", "a", "z", "az", "b", "ab", "abc", "zza"]);
    let mut visited: Vec<Vec<u8>> = Vec::new();
    trie.for_each(|bytes: &[u8], _token: u32| visited.push(bytes.to_vec()));
    let mut sorted = visited.clone();
    sorted.sort();
    sorted.dedup();
    assert_eq!(visited, sorted);
    assert_eq!(visited.len(), 8);
}

#[test]
fn children_from_their_offsets() {
    let trie = trie_of(&["c", "b", "a"]);
    let mut children = trie.children(&trie.root());
    children.next();
    let (start, end) = children.offsets();
    let ctx = TrieDecodeCtx { trie: &trie };
    let again = NodeChildren::new(ctx.trie, start, end);
    assert_eq!(again, children);
    assert_eq!(bytes_of(again), b"bc".to_vec());
    let mut nothing = NodeChildren::new(&trie, 50, 20);
    assert!(nothing.next().is_none());
    assert_eq!(nothing.offsets(), (50, 20));
}

#[test]
fn inserted_words_keep_their_siblings() {
    let mut builder = HashTrie::new(0xFF);
    for b in 0..=250u8 {
        builder.insert(&[250 - b], b as u32);
    }
    assert_eq!(builder.children.len(), 256);
    builder.insert(&[7], 9000);
    builder.insert(&[255, 1], 9001);
    for (k, child) in builder.children.iter().enumerate() {
        assert_eq!(child.byte as usize, k);
        let expected = match k {
            7 => 9000,
            251..=255 => 0xFF_FFFF,
            _ => 250 - k as u32,
        };
        assert_eq!(child.token_id, expected);
    }
    assert_eq!(builder.children[255].children[0].token_id, 9001);
}

#[test]
fn subtrees_are_appended() {
    let mut builder = HashTrie::new(b'x');
    builder.insert(b"b", 4);
    builder.insert(b"a", 3);
    let first = TrieNode::new(1, 2, 3);
    let mut out = vec![first; 5];
    builder.serialize(&mut out, 6);
    assert_eq!(out[..5], [first; 5]);
    let fields: Vec<(u8, Option<u32>, usize, usize)> =
        out[5..].iter().map(|n| (n.byte(), n.token_id(), n.subtree_size(), n.num_parents())).collect();
    assert_eq!(fields, vec![(b'x', None, 3, 6), (b'a', Some(3), 1, 1), (b'b', Some(4), 1, 7)]);
}
