//! Front end of a small scripting language: a tokenizer that turns source
//! text into classified tokens, and a rule matcher that groups runs of
//! tokens into syntax nodes.

pub mod error;
pub mod lexer;
pub mod parser;
pub mod laws;
