//! The one error that a front end reports, whatever went wrong.

use crate::executor::exec_error_text;
use crate::executor::ExecError;
use crate::parser::display::context_text;
use crate::parser::ParseErrorWithContext;
use vstd::prelude::*;
use vstd::string::StringExecFns;
use vstd::std_specs::convert::FromSpecImpl;

verus! {

/// What went wrong, by where it went wrong, with its message.
#[derive(Debug)]
pub enum Error {
    IO { msg: String },
    Parse { msg: String },
    Exec { msg: String },
}

impl Error {
    /// The message of the error.
    pub open spec fn text(&self) -> Seq<char> {
        match self {
            Error::IO { msg } => msg@,
            Error::Parse { msg } => msg@,
            Error::Exec { msg } => msg@,
        }
    }

    /// The message of the error.
    pub fn message(&self) -> (out: String)
        ensures
            out@ == self.text(),
    {
        match self {
            Error::IO { msg } => msg.clone(),
            Error::Parse { msg } => msg.clone(),
            Error::Exec { msg } => msg.clone(),
        }
    }
}

impl<'a> From<ParseErrorWithContext<'a>> for Error {
    /// A parse error, with the place at which it was met in its message.
    fn from(err: ParseErrorWithContext<'a>) -> (e: Self)
        ensures
            e is Parse,
            e.text() == "parse error: "@ + context_text(err.err, err.str@, err.cur as nat),
    {
        let mut msg = String::from_str("parse error: ");
        let text = err.to_text();
        msg.append(text.as_str());
        Error::Parse { msg }
    }
}

impl<'a> FromSpecImpl<ParseErrorWithContext<'a>> for Error {
    open spec fn obeys_from_spec() -> bool {
        false
    }

    open spec fn from_spec(err: ParseErrorWithContext<'a>) -> Self {
        arbitrary()
    }
}

impl From<ExecError> for Error {
    /// An error of the executor, with what it says in its message.
    fn from(err: ExecError) -> (e: Self)
        ensures
            e is Exec,
            e.text() == "parse error: "@ + exec_error_text(err),
    {
        let mut msg = String::from_str("parse error: ");
        let text = err.message();
        msg.append(text.as_str());
        Error::Exec { msg }
    }
}

impl FromSpecImpl<ExecError> for Error {
    open spec fn obeys_from_spec() -> bool {
        false
    }

    open spec fn from_spec(err: ExecError) -> Self {
        arbitrary()
    }
}

} // verus!
