//! An interpreter for a stack-oriented scripting language: the values, the
//! tokenizer, the evaluator and its commands, and a small HTTP front end.
//! Commands that reach the outside world are performed by a host the caller
//! supplies.
pub mod text;
pub mod unicode;
pub mod syntax;
pub mod numeral;
pub mod json;
pub mod value;
pub mod store;
pub mod machine;
pub mod commands;
pub mod random;
pub mod pattern;
pub mod memory;
pub mod objects;
pub mod interp;
pub mod http;
pub mod laws;
pub mod documents;
pub mod window;
