//! Real-time recognition of key combos: a multi-pattern streaming automaton
//! (a trie with failure links) and a session engine with an inactivity timeout.
pub mod automaton;
pub mod engine;
pub mod input;
pub mod parse;
pub mod screen;
pub mod text;
