//! What can go wrong.

use vstd::prelude::*;
use crate::text::join2;

verus! {

/// Why an operation on a named file did not happen.
#[derive(Debug, Clone, Copy, PartialEq, Eq)]
pub enum Fault {
    /// There is no file of that name.
    Missing,
    /// There is a file of that name already, and it may not be replaced.
    Exists,
}

/// The failures of `expand` and `collapse`.
#[derive(Debug, Clone, PartialEq, Eq)]
pub enum Error {
    /// An action on a named file failed.
    IoFailed { action: &'static str, target: String },
    /// The path names no file.
    InvalidPath,
    /// The script holds a `switch` block.
    UnsupportedConstruct,
}

/// An [`Error`] as plain values.
pub ghost enum ErrorView {
    IoFailed { action: Seq<char>, target: Seq<char> },
    InvalidPath,
    UnsupportedConstruct,
}

impl View for Error {
    type V = ErrorView;

    open spec fn view(&self) -> ErrorView {
        match self {
            Error::IoFailed { action, target } => ErrorView::IoFailed {
                action: action@,
                target: target@,
            },
            Error::InvalidPath => ErrorView::InvalidPath,
            Error::UnsupportedConstruct => ErrorView::UnsupportedConstruct,
        }
    }
}

pub open spec fn io_failed(action: Seq<char>, target: Seq<char>) -> ErrorView {
    ErrorView::IoFailed { action, target }
}

/// The sentence that describes an error.
pub open spec fn message_of(e: ErrorView) -> Seq<char> {
    match e {
        ErrorView::IoFailed { action, target } => "failed to "@ + action + " \""@ + target + "\""@,
        ErrorView::InvalidPath => "no filename"@,
        ErrorView::UnsupportedConstruct => "switch is unimplemented"@,
    }
}

impl Error {
    /// Describes the error in words.
    pub fn message(&self) -> (s: String)
        ensures
            s@ == message_of(self@),
    {
        match self {
            Error::IoFailed { action, target } => {
                let a = join2("failed to ", action);
                let b = join2(a.as_str(), " \"");
                let c = join2(b.as_str(), target.as_str());
                join2(c.as_str(), "\"")
            },
            Error::InvalidPath => "no filename".to_string(),
            Error::UnsupportedConstruct => "switch is unimplemented".to_string(),
        }
    }
}

} // verus!
