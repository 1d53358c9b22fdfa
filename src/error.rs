use vstd::prelude::*;

verus! {

/// The grammar rule at which a parse stopped.
#[derive(Debug, PartialEq, Eq, Clone, Copy)]
pub enum Rule {
    ObjStart,
    ObjEnd,
    Sigma,
    BracketStart,
    BracketEnd,
    Equals,
    Identifier,
}

/// A structural mismatch: the rule that did not match and the input left
/// unconsumed where it was tried.
#[derive(Debug, PartialEq, Eq)]
pub struct ParseError<I> {
    pub input: I,
    pub rule: Rule,
}

/// The outcome of a grammar rule: the remaining input and what was recognized.
pub type PResult<I, O> = Result<(I, O), ParseError<I>>;

} // verus!
