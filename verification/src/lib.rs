//! Core interaction engine of a keyboard-driven editor for a hierarchical
//! code namespace: a prefix-trie command recognizer, a command buffer, a
//! package/declaration tree, a fuzzy subsequence search index, and a
//! multi-slot prompt state machine.

pub mod command;
pub mod input;
pub mod java_model;
pub mod prompt;
pub mod search;
pub mod state;
pub mod svec;
