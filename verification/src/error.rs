//! The error values returned by the validated entry points.

use vstd::prelude::*;
use vstd::string::StringExecFns;

verus! {

/// What can go wrong when a board or a bit set is used.
#[derive(Debug, Clone, Copy, PartialEq, Eq, Structural)]
pub enum SuDoKuError {
    /// A digit outside `1..=9` was handed to a validated setter.
    InvalidValue,
    /// A row or column of 9 or more, or a bit set key of 16 or more.
    OutOfBound,
    /// The search ran out of candidates without completing the board.
    NotSolveable,
    /// Kept for stricter validation; no operation returns it.
    DuplicateValue,
}

impl SuDoKuError {
    /// The name of the variant, as text.
    pub open spec fn name(self) -> Seq<char> {
        match self {
            SuDoKuError::InvalidValue => "InvalidValue"@,
            SuDoKuError::OutOfBound => "OutOfBound"@,
            SuDoKuError::NotSolveable => "NotSolveable"@,
            SuDoKuError::DuplicateValue => "DuplicateValue"@,
        }
    }

    /// Renders the error as the name of its variant.
    pub fn to_string(&self) -> (text: String)
        ensures
            text@ == self.name(),
    {
        match self {
            SuDoKuError::InvalidValue => String::from_str("InvalidValue"),
            SuDoKuError::OutOfBound => String::from_str("OutOfBound"),
            SuDoKuError::NotSolveable => String::from_str("NotSolveable"),
            SuDoKuError::DuplicateValue => String::from_str("DuplicateValue"),
        }
    }
}

} // verus!
