use vstd::prelude::*;

verus! {

/// Why tokenizing or parsing stopped, with the offending cursor position.
#[derive(Debug, Clone, Copy, PartialEq, Eq, Structural)]
pub enum SyntaxError {
    /// A string literal opened at this character position has no closing quote.
    UnterminatedLiteral(usize),
    /// A character was read at this position, past the end of the input.
    UnexpectedEndOfInput(usize),
    /// No grammar rule matches; the position is the furthest token any rule reached.
    UnmatchedTokens(usize),
}

} // verus!
