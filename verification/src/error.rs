//! Errors reported when a view is asked for a grant.

use vstd::prelude::*;

verus! {

/// Why a grant could not be made.
#[derive(Debug, PartialEq, Eq)]
pub enum Error {
    /// The stream has ended: the other side is gone and nothing is left to
    /// hand out.
    Closed,
    /// The request is larger than the ring could ever grant.
    Overflow,
    /// Some other error, which only the view that reports it knows; it is
    /// carried by its description. No buffer of this crate reports it.
    Other(String),
}

impl Clone for Error {
    fn clone(&self) -> (copy: Self)
        ensures
            copy == *self,
    {
        match self {
            Error::Closed => Error::Closed,
            Error::Overflow => Error::Overflow,
            Error::Other(description) => Error::Other(description.clone()),
        }
    }
}

impl Error {
    /// A short description of the error, for people.
    pub fn message(&self) -> (text: String)
        ensures
            text@ == match *self {
                Error::Closed => "the stream has been closed"@,
                Error::Overflow => "buffer overflow"@,
                Error::Other(description) => description@,
            },
    {
        match self {
            Error::Closed => "the stream has been closed".to_owned(),
            Error::Overflow => "buffer overflow".to_owned(),
            Error::Other(description) => description.clone(),
        }
    }
}

} // verus!
