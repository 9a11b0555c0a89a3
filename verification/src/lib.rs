//! Front end for a Ninja-style build-description language: a byte-oriented,
//! escape-aware lexer, a recursive-descent parser, and an arena-backed scope
//! model with eager variable expansion, together with the leaf utilities they
//! are built on (content blobs, an indexed store, and a string-interning
//! table).

pub mod arena;
pub mod ast;
pub mod blob;
pub mod intern;
pub mod lex;
pub mod parse;
