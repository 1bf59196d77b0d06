use outlines_core::vocabulary::class_groups::ClassGroups;
use outlines_core::vocabulary::trie::{NodeRef, Trie};

fn groups_at(groups: &ClassGroups, trie: &Trie, node: &NodeRef) -> Vec<(u8, u8, usize, usize)> {
    let mut it = groups.groups(trie, node);
    let mut all = Vec::new();
    while let Some(g) = it.next() {
        all.push((g.rep.byte(), g.class, g.start_off, g.end_off));
    }
    assert!(it.next().is_none());
    all
}

#[test]
fn children_are_grouped_by_class() {
    let words = vec![b"a".to_vec(), b"bx".to_vec(), b"c".to_vec(), b"d".to_vec()];
    let trie = Trie::try_from_tokens(&words, 0).expect("trie");
    let mut classes = [0u8; 256];
    classes[b'a' as usize] = 1;
    classes[b'b' as usize] = 1;
    classes[b'c' as usize] = 2;
    classes[b'd' as usize] = 1;
    let groups = ClassGroups::build(&trie, &classes);
    assert_eq!(
        groups_at(&groups, &trie, &trie.root()),
        vec![(b'a', 1, 1, 4), (b'c', 2, 4, 5), (b'd', 1, 5, 6)]
    );
    let b = trie.child_at_byte(&trie.root(), b'b').expect("b");
    assert_eq!(groups_at(&groups, &trie, &b), vec![(b'x', 0, 3, 4)]);
    let a = trie.child_at_byte(&trie.root(), b'a').expect("a");
    assert_eq!(groups_at(&groups, &trie, &a), vec![]);
}

#[test]
fn groups_partition_the_children() {
    let words: Vec<Vec<u8>> = (0..=255u16).map(|b| vec![b as u8]).collect();
    let trie = Trie::try_from_tokens(&words, 0).expect("trie");
    let mut classes = [0u8; 256];
    for b in 0..256 {
        classes[b] = (b / 10) as u8;
    }
    let groups = ClassGroups::build(&trie, &classes);
    let all = groups_at(&groups, &trie, &trie.root());
    assert_eq!(all.len(), 26);
    assert_eq!(all[0].2, 1);
    assert_eq!(all[25].3, 257);
    for pair in all.windows(2) {
        assert_eq!(pair[0].3, pair[1].2);
        assert_ne!(pair[0].1, pair[1].1);
    }
}

#[test]
fn every_child_can_have_its_own_class() {
    let words: Vec<Vec<u8>> = (0..=255u16).map(|b| vec![b as u8]).collect();
    let trie = Trie::try_from_tokens(&words, 0).expect("trie");
    let mut classes = [0u8; 256];
    for b in 0..256 {
        classes[b] = b as u8;
    }
    let groups = ClassGroups::build(&trie, &classes);
    assert_eq!(groups_at(&groups, &trie, &trie.root()).len(), 256);
}
