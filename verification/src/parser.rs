//! The common interface of the file parsers.

use vstd::prelude::*;

verus! {

#[verifier::external_type_specification]
#[verifier::external_body]
pub struct ExAnyhowError(anyhow::Error);

/// The base trait of the file parsers: a parser that reads the file at a path into some output.
pub trait Parser {
    type Output;

    fn parse(&self, path: &str) -> Result<Self::Output, anyhow::Error>;
}

} // verus!
