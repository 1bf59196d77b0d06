use outlines_core::error::Error;
use outlines_core::vocabulary::Vocabulary;

#[test]
fn tokens_are_inserted() {
    let mut vocabulary = Vocabulary::new(3);
    assert_eq!(vocabulary.eos_token_id(), 3);
    assert_eq!(vocabulary.max_token_id(), None);
    vocabulary.try_insert("hello", 5).expect("insert");
    vocabulary.try_insert(vec![1u8, 2], 1).expect("insert");
    assert_eq!(vocabulary.max_token_id(), Some(5));
    let trie = vocabulary.trie().expect("trie");
    assert_eq!(trie.get("hello"), Some(5));
    assert_eq!(trie.get(vec![1u8, 2]), Some(1));
    assert_eq!(trie.get("hell"), None);
}

#[test]
fn tokens_are_replaced() {
    let mut vocabulary = Vocabulary::new(3);
    vocabulary.try_insert("one", 1).expect("insert");
    vocabulary.try_insert("two", 1).expect("insert");
    let trie = vocabulary.trie().expect("trie");
    assert_eq!(trie.get("one"), None);
    assert_eq!(trie.get("two"), Some(1));
}

#[test]
fn end_token_has_no_bytes() {
    let mut vocabulary = Vocabulary::new(3);
    assert!(matches!(vocabulary.try_insert("x", 3), Err(Error::EOSTokenDisallowed)));
    assert_eq!(vocabulary.max_token_id(), None);
}

#[test]
fn large_token_ids_are_refused() {
    let mut vocabulary = Vocabulary::new(3);
    assert!(matches!(vocabulary.try_insert("x", 0xFF_FFFF), Err(Error::TokenIdTooLarge)));
    assert_eq!(vocabulary.max_token_id(), None);
}

#[test]
fn deep_tries_are_refused() {
    let mut vocabulary = Vocabulary::new(3);
    vocabulary.try_insert(vec![7u8; 400], 1).expect("insert");
    assert!(vocabulary.trie().is_none());
}
