//! The tokens of a story script.
use vstd::prelude::*;

verus! {

/// A token of a story script. Blanks and tabs between tokens carry no meaning.
#[derive(Debug, PartialEq, Eq, Clone, Copy, Structural)]
pub enum Token {
    /// A run of ASCII letters.
    Name,
    /// A comma.
    Comma,
    /// A line feed.
    Newline,
}

} // verus!
