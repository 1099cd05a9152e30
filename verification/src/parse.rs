//! Reading a story script.
use vstd::prelude::*;
use vstd::string::StringSliceAdditionalSpecFns;
use crate::lex::Lexer;

verus! {

/// Sets a tokenizer up at the start of the script and returns it: the script's
/// bytes, none of them consumed.
pub fn parse(input: &str) -> (lexer: Lexer)
    ensures
        lexer.wf(),
        lexer@.bytes == input.spec_bytes(),
        lexer@.pos == 0,
{
    Lexer::new(input)
}

} // verus!
