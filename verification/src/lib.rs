//! A small interactive shell front-end: a quote-aware tokenizer, a resolver
//! that classifies a command name as builtin or external, a prefix trie for
//! tab completion, and the state machine of a raw-terminal line editor.
pub mod command;
pub mod editor;
pub mod text;
pub mod tokenizer;
pub mod trie;
pub mod utils;
