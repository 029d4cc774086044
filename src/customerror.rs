use vstd::prelude::*;

verus! {

/// The ways a request to the ledger or the builder can fail.
#[derive(Debug, Clone, Copy, PartialEq, Eq, Structural)]
pub enum CustomError {
    /// The address has never held an output.
    WalletNotFound,
    /// The address is known, but what it holds does not cover the amount.
    ExceedsBalance,
    /// The request is malformed (a payment to oneself).
    BadRequest,
}

impl CustomError {
    /// The text shown to a user for this error.
    pub open spec fn message_spec(&self) -> Seq<char> {
        match self {
            CustomError::WalletNotFound => "Not Found"@,
            CustomError::ExceedsBalance => "Exceeds balance"@,
            CustomError::BadRequest => "Bad Request"@,
        }
    }

    pub fn message(&self) -> (r: &'static str)
        ensures
            r@ == self.message_spec(),
    {
        match self {
            CustomError::WalletNotFound => "Not Found",
            CustomError::ExceedsBalance => "Exceeds balance",
            CustomError::BadRequest => "Bad Request",
        }
    }
}

} // verus!
