use outlines_core::automaton::{TableAutomaton, TableState};
use outlines_core::error::Error;
use outlines_core::index::Index;
use outlines_core::vocabulary::Vocabulary;

/// The index of a regular expression for tokens given with their ids.
fn index_of(regex: &str, eos: u32, tokens: &[(&str, u32)]) -> Index {
    let mut vocabulary = Vocabulary::new(eos);
    for (token, id) in tokens {
        vocabulary.try_insert(*token, *id).expect("Insert failed");
    }
    Index::new(regex, &vocabulary).expect("Index failed")
}

/// The state behind tokens, if each of them leads on.
fn follow(index: &Index, tokens: &[u32]) -> Option<u32> {
    let mut state = index.initial_state();
    for token in tokens {
        state = index.next_state(&state, token)?;
    }
    Some(state)
}

#[test]
fn index_from_regex() {
    let regex = "0|[1-9][0-9]*";
    let eos_token_id = 4;
    let mut vocabulary = Vocabulary::new(eos_token_id);
    for (token, token_id) in [("blah", 0), ("1a", 1), ("2", 2), ("0", 3)] {
        vocabulary
            .try_insert(token, token_id as u32)
            .expect("Insert failed");
    }
    let index = Index::new(regex, &vocabulary).expect("Index failed");
    let initial_state = index.initial_state();
    assert_eq!(initial_state, 0);
    assert_eq!(index.final_states().len(), 3);
    assert!(!index.is_final_state(initial_state));

    let allowed_tokens = index
        .allowed_tokens(&initial_state)
        .expect("No allowed tokens");
    assert!(allowed_tokens.contains(&3));
    let state = index.next_state(&initial_state, &3).unwrap();
    assert!(index.is_final_state(state));

    assert_eq!(index.next_state(&state, &eos_token_id), None);
    assert_eq!(index.next_state(&state, &3), None);
}

#[test]
fn index_from_regex_initital_in_allowed() {
    let regex = "`\\n(\\.\\n)?`\\n";
    let mut vocabulary = Vocabulary::new(104);
    for (token, token_id) in [("\n", 103), (".", 102), ("`", 101)] {
        vocabulary
            .try_insert(token, token_id as u32)
            .expect("Insert failed");
    }

    let index = Index::new(regex, &vocabulary).expect("Index failed");
    let allowed = index
        .allowed_tokens(&index.initial_state())
        .expect("No allowed tokens");
    assert!(allowed.contains(&101));
}

#[test]
fn index_from_regex_multibyte() {
    let regex = "😇| [😈-😍][😇-😎]*";
    let mut vocabulary = Vocabulary::new(8);
    for (token, token_id) in [(" 😍", 5), ("blah", 0), ("😇", 2), ("😈a", 1), ("😍", 3)] {
        vocabulary
            .try_insert(token, token_id as u32)
            .expect("Insert failed");
    }
    for (token, token_id) in [
        (vec![32, 240, 159, 152], 7),
        (vec![32, 240, 159, 152, 141], 6),
        (vec![240, 159, 152, 141], 4),
    ] {
        vocabulary
            .try_insert(token, token_id as u32)
            .expect("Insert failed");
    }

    let index = Index::new(regex, &vocabulary).expect("Index failed");
    assert_eq!(index.final_states().len(), 2);
}

#[test]
fn rows_of_a_regex() {
    let index = index_of("0|[1-9][0-9]*", 4, &[("blah", 0), ("1a", 1), ("2", 2), ("0", 3)]);
    assert_eq!(index.allowed_tokens(&0), Some(vec![3, 2]));
    assert_eq!(index.allowed_tokens(&1), Some(vec![4]));
    assert_eq!(index.allowed_tokens(&2), Some(vec![3, 2, 4]));
    assert_eq!(index.allowed_tokens(&3), Some(vec![3, 2, 4]));
    assert_eq!(index.allowed_tokens(&4), None);
    assert_eq!(index.final_states(), vec![1, 2, 3]);
    assert_eq!(index.transitions().len(), 4);
    assert_eq!(index.vocab_size(), 5);
    assert_eq!(index.eos_token_id(), 4);
    assert_eq!(index.next_state(&0, &2), Some(2));
    assert_eq!(index.next_state(&2, &2), Some(3));
    assert_eq!(index.next_state(&3, &3), Some(3));
    assert_eq!(index.next_state(&0, &0), None);
    assert_eq!(index.next_state(&9, &3), None);
    assert!(!index.is_final_state(9));
}

#[test]
fn text_of_an_index() {
    let index = index_of("0|[1-9][0-9]*", 14, &[("blah", 0), ("1a", 1), ("2", 12), ("0", 3)]);
    assert_eq!(
        index.to_string(),
        "Index object with transitions:\n\
         0 -> [(3, 1), (12, 2)]\n\
         1 -> [(14, 1)]\n\
         2 -> [(3, 3), (12, 3), (14, 2)]\n\
         3 -> [(3, 3), (12, 3), (14, 3)]\n"
    );
    let nothing = index_of("a", 0, &[("b", 1)]);
    assert_eq!(nothing.to_string(), "Index object with transitions:\n");
}

#[test]
fn allowed_tokens_one_by_one() {
    let index = index_of("(ab|c)+", 9, &[("a", 0), ("ab", 1), ("c", 2), ("b", 3), ("abc", 4)]);
    let mut it = index.allowed_tokens_iter(&0).expect("initial state");
    let mut tokens = Vec::new();
    while let Some(token) = it.next() {
        tokens.push(token);
    }
    assert_eq!(Some(tokens), index.allowed_tokens(&0));
    assert!(it.next().is_none());
    assert!(index.allowed_tokens_iter(&100).is_none());
}

#[test]
fn longer_tokens_come_after_shorter_ones() {
    let index = index_of(".*", 9, &[("a", 0), ("ab", 1), ("c", 2), ("b", 3), ("abc", 4), ("cd", 5)]);
    assert_eq!(index.allowed_tokens(&0), Some(vec![0, 3, 2, 5, 1, 4, 9]));
}

#[test]
fn tokens_follow_their_bytes() {
    let index = index_of("(ab|c)+", 9, &[("a", 0), ("ab", 1), ("c", 2), ("b", 3), ("abc", 4)]);
    let whole = follow(&index, &[4]).expect("abc");
    assert_eq!(follow(&index, &[0, 3, 2]), Some(whole));
    assert_eq!(follow(&index, &[1, 2]), Some(whole));
    assert!(index.is_final_state(whole));
    let part = follow(&index, &[0]).expect("a");
    assert!(!index.is_final_state(part));
    assert!(!index.allowed_tokens(&part).unwrap().contains(&9));
    assert_eq!(follow(&index, &[0, 2]), None);
    assert_eq!(follow(&index, &[3]), None);
}

#[test]
fn a_match_must_extend_to_the_end() {
    let index = index_of("(ab|c)+", 9, &[("a", 0), ("ab", 1), ("c", 2), ("b", 3), ("abc", 4)]);
    let matched = follow(&index, &[2]).expect("c");
    assert!(index.is_final_state(matched));
    assert_eq!(index.next_state(&matched, &0), None);
    assert!(index.is_final_state(follow(&index, &[2, 2]).expect("cc")));
}

#[test]
fn end_is_allowed_in_final_states_only() {
    let index = index_of("(ab|c)+", 9, &[("a", 0), ("b", 3), ("c", 2)]);
    let states = index.transitions().len() as u32;
    assert_eq!(index.final_flags().len() as u32, states);
    for state in 0..states {
        let row = &index.transitions()[state as usize];
        if index.is_final_state(state) {
            assert_eq!(row.get(9), Some(state));
        } else {
            assert_eq!(row.get(9), None);
        }
        assert_eq!(index.next_state(&state, &9), None);
    }
}

#[test]
fn states_are_reached_from_earlier_ones() {
    let index = index_of("[ab]{3}c?", 9, &[("a", 0), ("ab", 1), ("c", 2), ("b", 3)]);
    let states = index.transitions().len() as u32;
    assert!(states > 3);
    for state in 1..states {
        let reached = (0..state).any(|earlier| {
            let row = &index.transitions()[earlier as usize];
            let mut tokens = row.tokens();
            let mut targets = row.states();
            while let (Some(token), Some(target)) = (tokens.next(), targets.next()) {
                if token != 9 && target == state {
                    return true;
                }
            }
            false
        });
        assert!(reached);
    }
    for row in index.transitions() {
        let mut targets = row.states();
        while let Some(target) = targets.next() {
            assert!(target < states);
        }
    }
}

#[test]
fn last_of_equal_tokens_counts() {
    let index = index_of("ab", 9, &[("ab", 1), ("ab", 3), ("a", 2)]);
    assert_eq!(index.allowed_tokens(&0), Some(vec![2, 3]));
}

#[test]
fn vocabulary_size_counts_the_end_token() {
    assert_eq!(index_of("a", 2, &[("a", 7)]).vocab_size(), 8);
    assert_eq!(index_of("a", 20, &[("a", 7)]).vocab_size(), 21);
    assert_eq!(index_of("a", 3, &[]).vocab_size(), 4);
}

#[test]
fn bad_regex_is_refused() {
    let vocabulary = Vocabulary::new(0);
    assert!(matches!(Index::new("(", &vocabulary), Err(Error::IndexDfaError(_))));
}

#[test]
fn regex_without_a_start_state_is_refused() {
    let mut vocabulary = Vocabulary::new(0);
    vocabulary.try_insert("a", 1).expect("Insert failed");
    assert!(matches!(Index::new("(?m)^a", &vocabulary), Err(Error::DfaHasNoStartState)));
}

#[test]
fn deep_vocabulary_is_refused() {
    let mut vocabulary = Vocabulary::new(0);
    vocabulary.try_insert(vec![97u8; 256], 1).expect("Insert failed");
    assert!(matches!(Index::new("a*", &vocabulary), Err(Error::VocabularyTooLarge)));
    let mut vocabulary = Vocabulary::new(0);
    vocabulary.try_insert(vec![97u8; 255], 1).expect("Insert failed");
    assert!(Index::new("a*", &vocabulary).is_ok());
}

#[test]
fn invalid_utf8_is_not_read() {
    let mut vocabulary = Vocabulary::new(0);
    vocabulary.try_insert(vec![0xFFu8], 1).expect("Insert failed");
    vocabulary.try_insert("x", 2).expect("Insert failed");
    let index = Index::new(".", &vocabulary).expect("Index failed");
    assert_eq!(index.allowed_tokens(&0), Some(vec![2]));
}

/// A table that reads `a` and then `b`; its states are numbered backwards.
fn ab_table() -> TableAutomaton {
    let dead = TableState { next: vec![0; 256], at_end: 0, is_match: false, is_dead: true, is_quit: false };
    let matched = TableState { is_dead: false, is_match: true, ..dead.clone() };
    let behind_b = TableState { at_end: 1, is_dead: false, ..dead.clone() };
    let mut behind_a = TableState { is_dead: false, ..dead.clone() };
    behind_a.next[98] = 2;
    let mut start = TableState { is_dead: false, ..dead.clone() };
    start.next[97] = 3;
    TableAutomaton::new(Some(4), vec![dead, matched, behind_b, behind_a, start]).expect("table")
}

#[test]
fn index_of_a_table() {
    let mut vocabulary = Vocabulary::new(5);
    for (token, id) in [("a", 0), ("b", 1), ("ab", 2), ("ba", 3), ("abb", 4)] {
        vocabulary.try_insert(token, id).expect("Insert failed");
    }
    let index = Index::from_automaton(&ab_table(), &vocabulary).expect("Index failed");
    assert_eq!(index.initial_state(), 0);
    assert_eq!(index.final_states(), vec![2]);
    assert_eq!(
        index.to_string(),
        "Index object with transitions:\n0 -> [(0, 1), (2, 2)]\n1 -> [(1, 2)]\n2 -> [(5, 2)]\n"
    );
}

#[test]
fn quit_and_match_states_are_not_entered() {
    let mut vocabulary = Vocabulary::new(5);
    for (token, id) in [("a", 0), ("b", 1), ("c", 2), ("d", 3)] {
        vocabulary.try_insert(token, id).expect("Insert failed");
    }
    let dead = TableState { next: vec![0; 256], at_end: 0, is_match: false, is_dead: true, is_quit: false };
    let quit = TableState { is_dead: false, is_quit: true, ..dead.clone() };
    let past_match = TableState { is_dead: false, is_match: true, ..dead.clone() };
    let end_match = TableState { is_dead: false, is_match: true, at_end: 3, ..dead.clone() };
    let mut start = TableState { is_dead: false, ..dead.clone() };
    start.next[97] = 1;
    start.next[98] = 2;
    start.next[99] = 3;
    start.next[100] = 0;
    let table = TableAutomaton::new(Some(4), vec![dead, quit, past_match, end_match, start]).expect("table");
    let index = Index::from_automaton(&table, &vocabulary).expect("Index failed");
    assert_eq!(index.allowed_tokens(&0), Some(vec![2]));
    assert!(index.is_final_state(index.next_state(&0, &2).unwrap()));
}

#[test]
fn table_without_a_start_state_is_refused() {
    let dead = TableState { next: vec![0; 256], at_end: 0, is_match: false, is_dead: true, is_quit: false };
    let table = TableAutomaton::new(None, vec![dead]).expect("table");
    let vocabulary = Vocabulary::new(5);
    assert!(matches!(Index::from_automaton(&table, &vocabulary), Err(Error::DfaHasNoStartState)));
}

#[test]
fn index_from_its_parts() {
    let index = index_of("(ab|c)+", 9, &[("a", 0), ("b", 3), ("c", 2)]);
    let again = Index::from_parts(
        index.initial_state(),
        index.final_flags().to_vec(),
        index.transitions().to_vec(),
        index.eos_token_id(),
        index.vocab_size(),
    );
    assert_eq!(again, Some(index.clone()));
    let short = Index::from_parts(0, vec![true], Vec::new(), 9, 10);
    assert!(short.is_none());
}
