//! The one error of the crate: a message for the user.

use vstd::prelude::*;

verus! {

/// What went wrong, in words.
#[derive(Debug)]
pub struct NvError(pub String);

impl View for NvError {
    type V = Seq<char>;

    open spec fn view(&self) -> Seq<char> {
        self.0@
    }
}

/// An error with the given message.
pub fn error(message: String) -> (cause: NvError)
    ensures
        cause@ == message@,
{
    NvError(message)
}

impl NvError {
    /// The message.
    pub fn message(&self) -> (text: &str)
        ensures
            text@ == self@,
    {
        self.0.as_str()
    }
}

/// A result with its error reduced to the message.
pub open spec fn worded<T>(result: Result<T, NvError>) -> Result<T, Seq<char>> {
    match result {
        Ok(value) => Ok(value),
        Err(cause) => Err(cause@),
    }
}

/// The result of a check: nothing to report if `fine`, the message otherwise.
pub open spec fn verdict(fine: bool, message: Seq<char>) -> Result<(), Seq<char>> {
    if fine {
        Ok(())
    } else {
        Err(message)
    }
}

} // verus!
