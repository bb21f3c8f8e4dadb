//! The typed errors of the store and the codec.

use vstd::prelude::*;

verus! {

/// Everything a store or codec operation can fail with.  A rejected
/// mutation leaves the document exactly as it was.
///
/// `ParseError` carries a human-readable cause; `IoFailure` is the
/// variant the host uses for storage-layer read/write failures, which
/// this crate surfaces but never produces itself.
#[derive(Debug, Clone, PartialEq)]
pub enum StoreError {
    /// No competitor with the given id.
    NotFound,
    /// The pole-vault elimination rule was tripped.
    RuleViolation,
    /// The attempt type does not apply to the competitor's category.
    WrongCategory,
    /// The attempt-count cap for the discipline is already reached.
    LimitReached,
    /// The persisted document is malformed.
    ParseError(String),
    /// A storage-layer read or write failed (host-side).
    IoFailure(String),
}

impl StoreError {
    /// The human-readable message of this error.
    pub open spec fn spec_message(&self) -> Seq<char> {
        match self {
            StoreError::NotFound => "Competitor not found"@,
            StoreError::RuleViolation => "Cannot attempt a height after failing a lower height 3 times"@,
            StoreError::WrongCategory => "Competitor is not a Wurf competitor"@,
            StoreError::LimitReached => "Maximum number of attempts reached"@,
            StoreError::ParseError(cause) => cause@,
            StoreError::IoFailure(cause) => cause@,
        }
    }

    /// Renders the error for display.
    pub fn message(&self) -> (r: String)
        ensures
            r@ == self.spec_message(),
    {
        match self {
            StoreError::NotFound => String::from_str("Competitor not found"),
            StoreError::RuleViolation => String::from_str(
                "Cannot attempt a height after failing a lower height 3 times",
            ),
            StoreError::WrongCategory => String::from_str("Competitor is not a Wurf competitor"),
            StoreError::LimitReached => String::from_str("Maximum number of attempts reached"),
            StoreError::ParseError(cause) => cause.clone(),
            StoreError::IoFailure(cause) => cause.clone(),
        }
    }
}

} // verus!
