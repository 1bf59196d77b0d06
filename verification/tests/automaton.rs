use outlines_core::automaton::{Automaton, TableAutomaton, TableState};
use outlines_core::regex_dfa::RegexDfa;

#[test]
fn regex_automaton_runs() {
    let dfa = match RegexDfa::new("ab") {
        Ok(dfa) => dfa,
        Err(error) => panic!("{error}"),
    };
    let stride = dfa.stride() as u32;
    assert!(stride.is_power_of_two());
    assert!(stride > 1);
    let start = dfa.start_state().expect("start state");
    assert_eq!(start % stride, 0);
    assert_ne!(start, 0);
    let a = dfa.next_state(start, b'a');
    let b = dfa.next_state(a, b'b');
    assert_ne!(a, start);
    assert!(!dfa.is_dead_state(a) && !dfa.is_quit_state(a) && !dfa.is_match_state(a));
    let end = dfa.next_eoi_state(b);
    assert_ne!(end, b);
    assert!(!dfa.is_match_state(b));
    assert!(dfa.is_match_state(end));
    assert!(!dfa.is_match_state(dfa.next_eoi_state(a)));
    let lost = dfa.next_state(start, b'x');
    assert_eq!(lost, 0);
    assert!(dfa.is_dead_state(lost));
    assert!(!dfa.is_match_state(lost) && !dfa.is_quit_state(lost));
    assert_eq!(dfa.next_state(lost, b'a'), 0);
    assert!(dfa.is_quit_state(stride));
}

#[test]
fn bad_regex_has_no_automaton() {
    assert!(RegexDfa::new("a(").is_err());
    assert!(RegexDfa::new("[").is_err());
    assert!(RegexDfa::new("a{2}").is_ok());
}

#[test]
fn start_state_depends_on_what_precedes() {
    let dfa = match RegexDfa::new("(?m)^a") {
        Ok(dfa) => dfa,
        Err(error) => panic!("{error}"),
    };
    assert_eq!(dfa.start_state(), None);
}

fn state(at_end: u32) -> TableState {
    TableState { next: vec![0; 256], at_end, is_match: false, is_dead: false, is_quit: true }
}

#[test]
fn tables_are_checked() {
    assert!(TableAutomaton::new(None, Vec::new()).is_some());
    assert!(TableAutomaton::new(Some(0), Vec::new()).is_none());
    assert!(TableAutomaton::new(Some(0), vec![state(0)]).is_some());
    assert!(TableAutomaton::new(Some(1), vec![state(0)]).is_none());
    assert!(TableAutomaton::new(Some(0), vec![state(1)]).is_none());
    let mut short = state(0);
    short.next.pop();
    assert!(TableAutomaton::new(Some(0), vec![short]).is_none());
    let mut wild = state(0);
    wild.next[200] = 5;
    assert!(TableAutomaton::new(Some(0), vec![wild]).is_none());
}

#[test]
fn tables_run() {
    let mut first = state(1);
    first.next[7] = 1;
    let second = TableState { is_match: true, is_quit: false, is_dead: true, ..state(0) };
    let table = TableAutomaton::new(Some(1), vec![first, second]).expect("table");
    assert_eq!(table.start_state(), Some(1));
    assert_eq!(table.stride(), 1);
    assert_eq!(table.next_state(0, 7), 1);
    assert_eq!(table.next_state(0, 8), 0);
    assert_eq!(table.next_eoi_state(0), 1);
    assert!(table.is_match_state(1) && !table.is_match_state(0));
    assert!(table.is_dead_state(1) && !table.is_dead_state(0));
    assert!(table.is_quit_state(0) && !table.is_quit_state(1));
}
