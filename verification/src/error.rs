//! Errors of the line-oriented reader: failures of reading, of reading an
//! environment variable, and lines that do not parse.

use vstd::prelude::*;
use crate::errors::{IoError, IoErrorKind, VarError};
use crate::text::{chars_of, decimal, push_decimal, push_str_chars, string_of_all};

verus! {

/// An error of the line-oriented reader.
#[derive(Debug)]
#[non_exhaustive]
pub enum Error {
    /// The input could not be read.
    Io(IoError),
    /// An environment variable could not be read.
    EnvVar(VarError),
    /// A line that does not parse: the text that was being parsed and the
    /// offset at which parsing stopped.
    LineParse(String, usize),
}

impl Error {
    /// Whether this is the failure to find a file.
    pub fn is_not_found(&self) -> (res: bool)
        ensures
            res == (self matches Error::Io(e) && e.kind == IoErrorKind::NotFound),
    {
        if let Error::Io(err) = self {
            return err.kind == IoErrorKind::NotFound;
        }
        false
    }

    /// The message that describes the error.
    pub fn message(&self) -> (res: String)
        ensures
            res@ == (match self {
                Error::Io(e) => e.message@,
                Error::EnvVar(VarError::NotPresent) => "environment variable not found"@,
                Error::EnvVar(VarError::NotUnicode(s)) =>
                    "environment variable was not valid unicode: "@ + s@,
                Error::LineParse(text, index) => "Failed to parse '"@ + text@ + "' at line "@
                    + decimal(*index as nat),
            }),
    {
        match self {
            Error::Io(err) => string_of_all(&chars_of(err.message.as_str())),
            Error::EnvVar(err) => err.message(),
            Error::LineParse(text, index) => {
                let mut out = chars_of("Failed to parse '");
                push_str_chars(&mut out, &chars_of(text.as_str()));
                push_str_chars(&mut out, &chars_of("' at line "));
                push_decimal(&mut out, *index);
                string_of_all(&out)
            },
        }
    }
}

} // verus!
