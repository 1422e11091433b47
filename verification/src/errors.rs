//! The errors of the parser, and of reading numbers.

use vstd::prelude::*;
use vstd::string::StringExecFns;

verus! {

/// Why a text is not a floating point literal.
#[derive(Debug, PartialEq, Eq, Clone, Copy)]
pub enum FloatLiteralError {
    /// The text is empty.
    Empty,
    /// The text is not empty and not a literal.
    Invalid,
}

impl FloatLiteralError {
    /// The error in words.
    pub open spec fn spec_message(self) -> Seq<char> {
        match self {
            FloatLiteralError::Empty => "cannot parse float from empty string"@,
            FloatLiteralError::Invalid => "invalid float literal"@,
        }
    }

    /// The error in words.
    pub fn message(&self) -> (text: String)
        ensures
            text@ == self.spec_message(),
    {
        match self {
            FloatLiteralError::Empty => "cannot parse float from empty string".to_owned(),
            FloatLiteralError::Invalid => "invalid float literal".to_owned(),
        }
    }
}

/// Why a text is not a whole number of 64 bits.
#[derive(Debug, PartialEq, Eq, Clone, Copy)]
pub enum IntegerError {
    /// The text is empty.
    Empty,
    /// A character is no digit, or a sign stands alone.
    InvalidDigit,
    /// The number is greater than the greatest of 64 bits.
    PosOverflow,
    /// The number is less than the least of 64 bits.
    NegOverflow,
}

/// A shortcut for a result whose error is a `LishpError`.
pub type LishpResult<T> = Result<T, LishpError>;

/// All the errors of the parser.
#[derive(Debug, PartialEq, Eq, Clone, Copy)]
pub enum LishpError {
    /// The tokens ended where a form or a closing parenthesis had to follow.
    /// Holds the byte offset of the outermost parenthesis that is still open,
    /// or 0 where none is.
    EOF(usize),
    /// A token that looks like a number is none.
    InvalidNumber(FloatLiteralError),
    /// A closing parenthesis stands where none is open. Holds its byte
    /// offset.
    UnbalancedParens(usize),
}

impl LishpError {
    /// The error in words.
    pub open spec fn spec_message(self) -> Seq<char> {
        match self {
            LishpError::EOF(_) => "Reached end of file before parsing finished"@,
            LishpError::InvalidNumber(e) => "InvalidNumber: "@ + e.spec_message(),
            LishpError::UnbalancedParens(_) => "Unbalanced parentheses"@,
        }
    }

    /// The error in words.
    pub fn message(&self) -> (text: String)
        ensures
            text@ == self.spec_message(),
    {
        match self {
            LishpError::EOF(_) => "Reached end of file before parsing finished".to_owned(),
            LishpError::InvalidNumber(e) => {
                let reason = e.message();
                "InvalidNumber: ".to_owned().concat(reason.as_str())
            },
            LishpError::UnbalancedParens(_) => "Unbalanced parentheses".to_owned(),
        }
    }
}

impl From<FloatLiteralError> for LishpError {
    fn from(other: FloatLiteralError) -> (error: LishpError) {
        LishpError::InvalidNumber(other)
    }
}

impl vstd::std_specs::convert::FromSpecImpl<FloatLiteralError> for LishpError {
    open spec fn obeys_from_spec() -> bool {
        true
    }

    open spec fn from_spec(other: FloatLiteralError) -> LishpError {
        LishpError::InvalidNumber(other)
    }
}

} // verus!
