//! The error type of the library.
use vstd::prelude::*;

verus! {

/// Failures reported to callers, each with a message.
#[derive(Debug, Clone, PartialEq, Eq)]
pub enum Error {
    Input(String),
    Validation(String),
    NotFound(String),
    Generic(String),
}

impl Error {
    pub fn input(msg: &str) -> (e: Error)
        ensures
            e matches Error::Input(m) && m@ == msg@,
    {
        Error::Input(msg.to_owned())
    }

    pub fn validation(msg: &str) -> (e: Error)
        ensures
            e matches Error::Validation(m) && m@ == msg@,
    {
        Error::Validation(msg.to_owned())
    }

    pub fn not_found(msg: &str) -> (e: Error)
        ensures
            e matches Error::NotFound(m) && m@ == msg@,
    {
        Error::NotFound(msg.to_owned())
    }

    pub fn generic(msg: &str) -> (e: Error)
        ensures
            e matches Error::Generic(m) && m@ == msg@,
    {
        Error::Generic(msg.to_owned())
    }
}

} // verus!
