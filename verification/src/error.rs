//! The error that the command line runtime reports.
use vstd::prelude::*;

verus! {

/// Why a run is refused.
#[derive(Debug, PartialEq, Eq)]
pub enum NonoError {
    /// The sandbox, or something it depends on, could not be set up. Holds the
    /// explanation that the user is shown.
    SandboxInit(String),
}

/// An error stands for its explanation.
impl View for NonoError {
    type V = Seq<char>;

    open spec fn view(&self) -> Seq<char> {
        match self {
            NonoError::SandboxInit(explanation) => explanation@,
        }
    }
}

/// What a fallible computation of a text came to: the text, or the explanation of
/// why there is none.
pub open spec fn outcome(result: Result<String, NonoError>) -> Result<Seq<char>, Seq<char>> {
    match result {
        Ok(text) => Ok(text@),
        Err(error) => Err(error@),
    }
}

/// What a check came to: passed, or the explanation of why it failed.
pub open spec fn verdict(result: Result<(), NonoError>) -> Result<(), Seq<char>> {
    match result {
        Ok(()) => Ok(()),
        Err(error) => Err(error@),
    }
}

} // verus!
