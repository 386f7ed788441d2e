//! The errors of the library.

use vstd::prelude::*;

verus! {

/// Possible errors returned by functions in this crate.
#[derive(Debug)]
pub enum Error {
    /// The table is invalid and cannot be used by the picker.
    InvalidTable,
    /// The given amount exceeds the amount of possible items in the table.
    InvalidAmount,
    /// Error from the random generator, with the generator's own description.
    RandError(String),
    /// Failure of the multi-thread probability calculator.
    ThreadError,
}

impl Error {
    /// A short description of the error.
    pub fn message(&self) -> (r: String)
        ensures
            self is InvalidTable ==> r@ == "Invalid probability table"@,
            self is InvalidAmount ==> r@ == "Invalid amount of items to be picked up"@,
            self is RandError ==> r@ == "RNG Error"@,
            self is ThreadError ==> r@ == "Thread error during calculation"@,
    {
        match self {
            Error::InvalidTable => String::from_str("Invalid probability table"),
            Error::InvalidAmount => String::from_str("Invalid amount of items to be picked up"),
            Error::RandError(_) => String::from_str("RNG Error"),
            Error::ThreadError => String::from_str("Thread error during calculation"),
        }
    }
}

} // verus!
