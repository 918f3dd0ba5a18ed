# Levenshtein automaton

Given a pattern and a maximum edit distance `k`, `LevenshteinAutomaton::new`
builds a DFA whose states are rows of edit distances between the input read so
far and each prefix of the pattern (clamped to `k + 1`). `match_word` walks it.
`Matcher` stores a dictionary in a trie and walks the trie and the automaton
together to list the dictionary words within `k` edits of a pattern.

Layout:

- `src/distance.rs`: the Levenshtein distance as a specification, the clamped
  distance rows, and the proof that one step of the row recurrence yields the
  row of the extended word.
- `src/state/`: `State` (a row) and `StateId` (the row read as a number in base
  `k + 2`), with the injectivity of identifiers.
- `src/automaton/`: construction by breadth-first search and matching; the
  contract of `match_word` is that it accepts exactly the words over the
  alphabet within `k` edits of the pattern.
- `src/utilities/`: `TrieNode`, specified by what a lookup along a path finds.
- `src/matcher/`: dictionary search.
- `tests/`: the test suite, including comparisons against a plain
  dynamic-programming edit distance.
- `app/main.rs`: the interactive command-line search over a dictionary file.
