use vstd::prelude::*;

verus! {

/// Why a compilation stopped. Each kind names the stage that found the fault.
#[derive(Debug, PartialEq, Eq, Clone, Copy)]
pub enum CompileError {
    /// The lexer met a character outside `(`, `)`, digits, letters and space.
    InvalidCharacter(char),
    /// The parser met a token that the grammar does not allow where it stands;
    /// the field is that token's index in the token sequence.
    UnexpectedToken(usize),
    /// The token sequence ended while a token or a `)` was still expected.
    UnbalancedParens,
    /// A number stood where no call could take it as an argument.
    MalformedTargetShape,
}

} // verus!
