//! The closed set of failures. Only `NonClosedBrackets` and `InfiniteLoop`
//! are raised by the parser; the other variants are reserved for a
//! downstream execution engine working on a bounded memory tape.

use vstd::prelude::*;

verus! {

#[derive(Debug, Eq, PartialEq, Structural, Clone, Copy)]
pub enum Error {
    PtrBelowZero,
    PtrAboveLimit,
    NonClosedBrackets,
    NonClosedEnvs,
    NestedEnv,
    InfiniteLoop,
}

impl Error {
    /// The diagnostic text of each failure.
    pub open spec fn message_spec(self) -> Seq<char> {
        match self {
            Error::PtrBelowZero => "error: mem pointer went below zero."@,
            Error::PtrAboveLimit => "error: mem pointer went above limit 30000"@,
            Error::NonClosedBrackets => "error: some brackets are unclosed on source code"@,
            Error::NonClosedEnvs => "error: some environments (parentheses) are unclosed in your source code"@,
            Error::NestedEnv => "error: environment nesting is not allowed"@,
            Error::InfiniteLoop => "error: potential infinite loop in source code"@,
        }
    }

    /// The diagnostic text of this failure, for callers that report it.
    pub fn message(&self) -> (r: String)
        ensures
            r@ == self.message_spec(),
    {
        match self {
            Error::PtrBelowZero => "error: mem pointer went below zero.".to_string(),
            Error::PtrAboveLimit => "error: mem pointer went above limit 30000".to_string(),
            Error::NonClosedBrackets => "error: some brackets are unclosed on source code".to_string(),
            Error::NonClosedEnvs => "error: some environments (parentheses) are unclosed in your source code".to_string(),
            Error::NestedEnv => "error: environment nesting is not allowed".to_string(),
            Error::InfiniteLoop => "error: potential infinite loop in source code".to_string(),
        }
    }
}

} // verus!
