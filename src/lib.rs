use vstd::prelude::*;

pub mod error;
pub mod lexer;
pub mod parser;

pub use error::{PResult, ParseError, Rule};
pub use lexer::{lex_tokens2, Lexer, SpecToken, Token};
pub use parser::{
    bracket_end, bracket_start, equals, expression, identifier, nametag, obj_end, obj_start, object,
    sigma,
};

verus! {

/// Recognizes nothing: the whole input remains, and the output is empty.
pub fn do_nothing_parser(input: &str) -> (r: PResult<&str, &str>)
    ensures
        r is Ok,
        r->Ok_0.0 == input,
        r->Ok_0.1@ == Seq::<char>::empty(),
{
    proof {
        reveal_strlit("");
    }
    Ok((input, ""))
}

} // verus!
