//! The ways in which an operation on a ledger can fail.

use vstd::prelude::*;

verus! {

/// Why a ledger operation was refused.
#[derive(Clone, Copy, Debug, PartialEq, Eq, Structural)]
pub enum LedgerError {
    /// A sell asks for more shares than are held at its moment, or names a
    /// symbol that has no ledger.
    InsufficientShares,
    /// A split ratio with a zero numerator or denominator.
    InvalidSplitRatio,
    /// The ledger cannot be replayed: a holding would go negative, or an
    /// amount leaves the range of the integers that carry it.
    LedgerInvariantViolation,
}

impl LedgerError {
    /// The message shown to the user for this error.
    pub fn message(&self) -> (text: String)
        ensures
            text@ == match *self {
                LedgerError::InsufficientShares => "Not enough shares to sell"@,
                LedgerError::InvalidSplitRatio => "Split ratio must be positive"@,
                LedgerError::LedgerInvariantViolation => "Ledger cannot be replayed"@,
            },
    {
        match self {
            LedgerError::InsufficientShares => "Not enough shares to sell".to_owned(),
            LedgerError::InvalidSplitRatio => "Split ratio must be positive".to_owned(),
            LedgerError::LedgerInvariantViolation => "Ledger cannot be replayed".to_owned(),
        }
    }
}

} // verus!
