//! Front end of the Vid video description language: source modules, token
//! streams, the tokenizer, interned names, diagnostics and types.

pub mod utils;
pub mod pools;
pub mod entities;
pub mod tokens;
pub mod ast;
pub mod codebase;
pub mod check;
