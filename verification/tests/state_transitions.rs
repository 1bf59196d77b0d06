use outlines_core::state_transitions::StateTransitions;

fn entries(table: &StateTransitions) -> Vec<(u32, u32)> {
    let mut tokens = table.tokens();
    let mut states = table.states();
    let mut all = Vec::new();
    while let (Some(token), Some(state)) = (tokens.next(), states.next()) {
        all.push((token, state));
    }
    assert!(tokens.next().is_none() && states.next().is_none());
    all
}

#[test]
fn empty_table() {
    let table = StateTransitions::new();
    assert!(table.is_empty());
    assert_eq!(table.get(0), None);
    assert_eq!(entries(&table), vec![]);
    let built = StateTransitions::bulk_build(&[]);
    assert!(!built.is_empty());
    assert_eq!(built.slot_entries().len(), 2);
    assert_eq!(built.get(7), None);
}

#[test]
fn built_entries_are_found() {
    let pairs: Vec<(u32, u32)> = (0..1000).map(|i| (i * 77, i + 5)).collect();
    let table = StateTransitions::bulk_build(&pairs);
    assert_eq!(entries(&table), pairs);
    for (token, state) in &pairs {
        assert_eq!(table.get(*token), Some(*state));
    }
    assert_eq!(table.get(1), None);
    assert_eq!(table.get(u32::MAX), None);
}

#[test]
fn built_tables_have_room_for_one_more() {
    for (count, slots) in [(0, 2), (1, 4), (2, 4), (3, 8), (6, 8), (7, 16), (13, 16), (14, 32)] {
        let pairs: Vec<(u32, u32)> = (0..count).map(|i| (i, i)).collect();
        let mut table = StateTransitions::bulk_build(&pairs);
        assert_eq!(table.slot_entries().len(), slots);
        table.insert(9999, 1);
        assert_eq!(table.slot_entries().len(), slots);
        assert_eq!(table.get(9999), Some(1));
    }
}

#[test]
fn inserted_entries_are_found() {
    let mut table = StateTransitions::new();
    for i in 0..500u32 {
        table.insert(i.wrapping_mul(0x9E37), i);
    }
    for i in 0..500u32 {
        assert_eq!(table.get(i.wrapping_mul(0x9E37)), Some(i));
    }
    assert_eq!(table.packed_entries().len(), 500);
}

#[test]
fn insert_replaces_in_place() {
    let mut table = StateTransitions::bulk_build(&[(1, 10), (2, 20), (3, 30)]);
    table.insert(2, 99);
    assert_eq!(entries(&table), vec![(1, 10), (2, 99), (3, 30)]);
    assert_eq!(table.get(1), Some(10));
    table.insert(4, 40);
    assert_eq!(entries(&table), vec![(1, 10), (2, 99), (3, 30), (4, 40)]);
}

#[test]
fn entries_are_packed() {
    let table = StateTransitions::bulk_build(&[(3, 5), (u32::MAX, u32::MAX - 1)]);
    assert_eq!(table.packed_entries(), &[(5u64 << 32) | 3, 0xFFFF_FFFE_FFFF_FFFF]);
    assert_eq!(table.get(u32::MAX), Some(u32::MAX - 1));
}

#[test]
fn tables_double() {
    let mut table = StateTransitions::new();
    let mut sizes = Vec::new();
    for i in 0..8 {
        table.insert(i, i);
        sizes.push(table.slot_entries().len());
    }
    assert_eq!(sizes, vec![2, 4, 4, 8, 8, 8, 8, 16]);
}

#[test]
fn table_from_its_parts() {
    let table = StateTransitions::bulk_build(&[(1, 10), (2, 20), (3, 30)]);
    let again = StateTransitions::from_parts(table.slot_entries().to_vec(), table.packed_entries().to_vec());
    assert_eq!(again, Some(table.clone()));
    assert_eq!(StateTransitions::from_parts(Vec::new(), Vec::new()), Some(StateTransitions::new()));

    let slots = table.slot_entries().to_vec();
    let pairs = table.packed_entries().to_vec();
    assert!(StateTransitions::from_parts(Vec::new(), pairs.clone()).is_none());
    assert!(StateTransitions::from_parts(vec![u32::MAX; 8], pairs.clone()).is_none());
    assert!(StateTransitions::from_parts(vec![u32::MAX; 7], pairs.clone()).is_none());
    let mut twice = pairs.clone();
    twice[1] = twice[0];
    assert!(StateTransitions::from_parts(slots.clone(), twice).is_none());
    let mut wrong = slots.clone();
    for slot in wrong.iter_mut() {
        if *slot == 0 {
            *slot = 77;
        }
    }
    assert!(StateTransitions::from_parts(wrong, pairs).is_none());
}
