//! How a solver says that it has failed.

use vstd::prelude::*;
use vstd::string::*;

verus! {

/// The failure of a solve, with its reason in words. The greedy solver
/// solves every instance and returns none; the type is what a solver
/// that can fail hands to its caller.
#[derive(Debug)]
pub struct SolveError {
    message: String,
}

impl SolveError {
    /// What went wrong, in words.
    pub closed spec fn reason(&self) -> Seq<char> {
        self.message@
    }

    /// An error with the given reason.
    pub fn new(message: String) -> (e: Self)
        ensures
            e.reason() == message@,
    {
        SolveError { message }
    }

    /// The reason, as it was given.
    pub fn message(&self) -> (m: &str)
        ensures
            m@ == self.reason(),
    {
        self.message.as_str()
    }

    /// The text to show: a fixed heading, then the reason.
    pub fn describe(&self) -> (s: String)
        ensures
            s@ == "Error while solving: "@ + self.reason(),
    {
        let mut s = String::from_str("Error while solving: ");
        s.append(self.message.as_str());
        s
    }
}

} // verus!
