//! An interactive command shell: a tokenizer for command lines, a prefix tree of command names
//! with a line editor that completes on TAB, and the engine that decides how each line runs.

pub mod args_parser;
pub mod error;
pub mod interpreter;
pub mod pipeline;
pub mod readline;
pub mod redirect;
pub mod text;
pub mod trie;
pub mod utils;
