//! A toolkit for regular languages and context-free grammars: regular
//! expressions are parsed into syntax trees, compiled to automata and
//! minimized; grammars are derived from automata, simplified and analysed.
pub mod char_set;
pub mod consts;
pub mod dfa;
pub mod error;
pub mod grammar;
pub mod graph;
pub mod index_set;
pub mod minimize;
pub mod nfa;
pub mod nfa_text;
pub mod objects;
pub mod regular_expression;
pub mod state_set;
pub mod subset;
pub mod text;
pub mod union_find;
pub mod views;
