//! Applicative errors: a message-carrying error type shared by the whole
//! compilation pipeline.

use vstd::prelude::*;

verus! {

pub type Result<T> = core::result::Result<T, Error>;

#[derive(Debug)]
pub struct Error {
    details: String,
}

impl View for Error {
    type V = Seq<char>;

    closed spec fn view(&self) -> Seq<char> {
        self.details@
    }
}

impl Error {
    pub fn new(msg: &str) -> (e: Error)
        ensures
            e@ == msg@,
    {
        Error { details: msg.to_owned() }
    }

    /// The human-readable message carried by this error.
    pub fn message(&self) -> (r: &str)
        ensures
            r@ == self@,
    {
        self.details.as_str()
    }
}

} // verus!
