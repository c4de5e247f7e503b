//! What can go wrong while parsing or evaluating a line.
use vstd::prelude::*;

verus! {

/// An error of the shell core.
#[derive(Debug)]
pub enum Error {
    /// A fragment of the line holds no command word.
    EmptyLine,
    /// An operating-system failure, with its message.
    Io(String),
    /// The command's program could not be found or started.
    NoCmd,
    /// `cd` was given no directory.
    NoDir,
}

/// An [`Error`] as a mathematical value.
pub enum ErrorView {
    EmptyLine,
    Io(Seq<char>),
    NoCmd,
    NoDir,
}

impl View for Error {
    type V = ErrorView;

    open spec fn view(&self) -> ErrorView {
        match self {
            Error::EmptyLine => ErrorView::EmptyLine,
            Error::Io(m) => ErrorView::Io(m@),
            Error::NoCmd => ErrorView::NoCmd,
            Error::NoDir => ErrorView::NoDir,
        }
    }
}

impl Error {
    /// A copy of this error.
    pub fn duplicate(&self) -> (r: Error)
        ensures
            r@ == self@,
    {
        match self {
            Error::EmptyLine => Error::EmptyLine,
            Error::Io(m) => Error::Io(m.clone()),
            Error::NoCmd => Error::NoCmd,
            Error::NoDir => Error::NoDir,
        }
    }

    /// The one-line diagnostic shown for this error: the message of an
    /// operating-system failure, fixed texts for a missing program and a
    /// missing directory, and nothing for an empty line.
    pub fn message(&self) -> (r: String)
        ensures
            match self {
                Error::Io(m) => r@ == m@,
                Error::NoCmd => r@ == "command not found"@,
                Error::NoDir => r@ == "cd: no directory given"@,
                Error::EmptyLine => r@.len() == 0,
            },
    {
        match self {
            Error::Io(m) => m.clone(),
            Error::NoCmd => String::from_str("command not found"),
            Error::NoDir => String::from_str("cd: no directory given"),
            Error::EmptyLine => String::new(),
        }
    }
}

} // verus!
