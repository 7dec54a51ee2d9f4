use vstd::prelude::*;

use crate::errors::ParseFormulaError;
use vstd::string::StrSliceExecFns;

verus! {

/// The binary operator a token can denote. Addition alone has a named
/// form here; multiplication is recognized structurally by the parser.
#[derive(Debug, Clone, PartialEq)]
pub enum Operator {
    Add,
}

impl core::str::FromStr for Operator {
    type Err = ParseFormulaError;

    fn from_str(s: &str) -> Result<Self, Self::Err> {
        if s.unicode_len() == 1 && s.get_char(0) == '+' {
            Ok(Operator::Add)
        } else {
            Err(ParseFormulaError)
        }
    }
}

} // verus!
