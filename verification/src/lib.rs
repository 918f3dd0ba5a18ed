//! A Levenshtein automaton: for a pattern and a maximum number of edits, a
//! deterministic automaton that accepts exactly the words within that edit
//! distance of the pattern, together with a trie-based dictionary search.

/// The edit distance and the clamped distance rows the automaton's states hold.
pub mod distance;
/// States of the automaton and their identifiers.
pub mod state;
/// The automaton: breadth-first construction and matching.
pub mod automaton;
/// A trie of words.
pub mod utilities;
/// Fuzzy search of a dictionary: the trie and the automaton walked in lockstep.
pub mod matcher;
