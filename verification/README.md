# outlines_core

Structured generation: an `Index` combines a vocabulary of tokens with a regular expression and maps
tokens to the transitions of a finite-state automaton. The crate is written in Verus; what its
functions do is stated in their contracts and proved.

- `src/state_transitions.rs`: the transitions of one state, a compact hash table.
- `src/vocabulary.rs` and `src/vocabulary/`: vocabularies, and the tries over their tokens. `words`
  says which trie belongs to a list of words, `flat` how a trie is stored, `builder` and `layout`
  build it, `trie` looks tokens up, `class_groups` groups children by byte classes.
- `src/automaton.rs`: automata as the index sees them, and automata given by a table.
- `src/regex_dfa.rs`: automata of regular expressions, which the crate `regex-automata` builds and
  runs. What is taken for granted of that crate is stated there, and nowhere else.
- `src/index.rs` and `src/index/`: the index. `reach` says which tokens can be read from which
  states, `walk` and `numbering` find them, `laws` states what holds of every index, `text` is its
  text form.
- `src/args.rs`: command line arguments.
- `app/`: a profiling program, and how indexes and tries are stored with `bincode`.
