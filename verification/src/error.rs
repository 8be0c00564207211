//! The library's error value: a message describing what failed.
//!
//! Per-file and per-directory failures are reported and never abort a
//! scan, so an error here is only ever a message carried to the
//! reporter.

use vstd::prelude::*;

verus! {

/// An error, carrying the message to report.
#[derive(Debug)]
pub struct Error {
    msg: String,
}

impl View for Error {
    type V = Seq<char>;

    closed spec fn view(&self) -> Seq<char> {
        self.msg@
    }
}

impl Error {
    /// An error with this message.
    pub fn new(msg: String) -> (e: Error)
        ensures
            e@ == msg@,
    {
        Error { msg }
    }

    /// The message to report.
    pub fn message(&self) -> (m: &String)
        ensures
            m@ == self@,
    {
        &self.msg
    }
}

impl From<String> for Error {
    /// An error from a bare message.
    fn from(s: String) -> (e: Error) {
        Error { msg: s }
    }
}

impl vstd::std_specs::convert::FromSpecImpl<String> for Error {
    open spec fn obeys_from_spec() -> bool {
        true
    }

    closed spec fn from_spec(s: String) -> Error {
        Error { msg: s }
    }
}

/// Converting a message into an error keeps the message.
pub proof fn lemma_error_from_message(s: String)
    ensures
        (<Error as vstd::std_specs::convert::FromSpec<String>>::from_spec(s))@ == s@,
{
}

}
