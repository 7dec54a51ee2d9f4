use vstd::prelude::*;

verus! {

/// The single failure signal of the parser: the input is not a
/// well-formed expression (an unmatched parenthesis, at either level).
#[derive(Debug, Clone)]
pub struct ParseFormulaError;

impl ParseFormulaError {
    /// A human-readable description of the failure.
    pub fn message(&self) -> (r: &'static str)
        ensures
            r@ == "Failed to parse a formula"@,
    {
        "Failed to parse a formula"
    }
}

} // verus!
