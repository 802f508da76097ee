//! The errors of the library.

use vstd::prelude::*;

verus! {

/// Errors returned by the library.
#[derive(Debug, Clone, PartialEq, Eq)]
pub enum Error {
    /// Local input or output failed; the text says how.
    Io(String),
    /// The ssh connection failed; the text says how.
    Ssh(String),
    /// A configuration or an operation was refused; the text says why.
    Config(String),
    /// No host matched the patterns.
    NoHosts,
}

/// What an [`Error`] holds.
pub enum ErrorView {
    Io(Seq<char>),
    Ssh(Seq<char>),
    Config(Seq<char>),
    NoHosts,
}

impl View for Error {
    type V = ErrorView;

    open spec fn view(&self) -> ErrorView {
        match *self {
            Error::Io(s) => ErrorView::Io(s@),
            Error::Ssh(s) => ErrorView::Ssh(s@),
            Error::Config(s) => ErrorView::Config(s@),
            Error::NoHosts => ErrorView::NoHosts,
        }
    }
}

/// The text of an error, as a user reads it.
pub open spec fn error_text(e: ErrorView) -> Seq<char> {
    match e {
        ErrorView::Io(s) => "io error: "@ + s,
        ErrorView::Ssh(s) => "ssh error: "@ + s,
        ErrorView::Config(s) => "config error: "@ + s,
        ErrorView::NoHosts => "no hosts matched the given patterns"@,
    }
}

impl Error {
    /// The text of the error, as a user reads it.
    pub fn message(&self) -> (r: String)
        ensures
            r@ == error_text(self@),
    {
        match self {
            Error::Io(s) => "io error: ".to_owned().concat(s.as_str()),
            Error::Ssh(s) => "ssh error: ".to_owned().concat(s.as_str()),
            Error::Config(s) => "config error: ".to_owned().concat(s.as_str()),
            Error::NoHosts => "no hosts matched the given patterns".to_owned(),
        }
    }
}

/// An error of the kind [`Error::Config`] with the text `head` and then `tail`.
pub fn config_error(head: &str, tail: &str) -> (e: Error)
    ensures
        e@ == ErrorView::Config(head@ + tail@),
{
    Error::Config(head.to_owned().concat(tail))
}

/// A message says what kind of error it is, and then all that the error holds.
pub proof fn messages_hold_the_whole_error(e: Error)
    ensures
        match e {
            Error::Io(s) => e@ == ErrorView::Io(s@) && error_text(e@) == "io error: "@ + s@,
            Error::Ssh(s) => e@ == ErrorView::Ssh(s@) && error_text(e@) == "ssh error: "@ + s@,
            Error::Config(s) => e@ == ErrorView::Config(s@) && error_text(e@) == "config error: "@
                + s@,
            Error::NoHosts => e@ == ErrorView::NoHosts && error_text(e@)
                == "no hosts matched the given patterns"@,
        },
{
}

} // verus!
