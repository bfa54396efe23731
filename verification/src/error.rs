//! Errors.

use vstd::prelude::*;

verus! {

/// Why a text is no sequence of tokens, and at which character.
#[derive(Clone, Copy, Debug, PartialEq, Eq, Hash, Structural)]
pub enum Error {
    /// No token begins with this character.
    UnexpectedCharacter(usize),
    /// The string that begins here does not end.
    UnterminatedString(usize),
    /// The integer that begins here is too large for its type.
    IntegerTooLarge(usize),
}

} // verus!
