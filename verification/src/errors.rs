//! Errors of loading: failures of reading a file and of reading an
//! environment variable. Both come from outside the library, which holds
//! what it needs of them as plain values.

use vstd::prelude::*;
use crate::text::{chars_of, string_of_all};

verus! {

/// The kind of an I/O failure, as far as the library tells kinds apart.
#[derive(Debug, Clone, Copy, PartialEq, Eq, Structural)]
pub enum IoErrorKind {
    NotFound,
    PermissionDenied,
    InvalidData,
    UnexpectedEof,
    Other,
}

/// An I/O failure: its kind and its message.
#[derive(Debug)]
pub struct IoError {
    pub kind: IoErrorKind,
    pub message: String,
}

impl IoError {
    /// A failure of the given kind with the given message.
    pub fn new(kind: IoErrorKind, message: String) -> (res: IoError)
        ensures
            res.kind == kind,
            res.message@ == message@,
    {
        IoError { kind, message }
    }
}

/// A failure to read an environment variable.
#[derive(Debug)]
pub enum VarError {
    /// The variable is not set.
    NotPresent,
    /// The variable's value is not valid Unicode; the value, debug-formatted.
    NotUnicode(String),
}

impl VarError {
    /// The message that describes the failure.
    pub fn message(&self) -> (res: String)
        ensures
            res@ == (match self {
                VarError::NotPresent => "environment variable not found"@,
                VarError::NotUnicode(s) => "environment variable was not valid unicode: "@ + s@,
            }),
    {
        match self {
            VarError::NotPresent => "environment variable not found".to_owned(),
            VarError::NotUnicode(s) => {
                let mut res = "environment variable was not valid unicode: ".to_owned();
                res.append(s.as_str());
                res
            },
        }
    }
}

/// An error of loading a `.env` file.
#[derive(Debug)]
#[non_exhaustive]
pub enum Error {
    /// The file could not be found or read.
    Io(IoError),
    /// An environment variable could not be read.
    Env(VarError),
}

impl Error {
    /// Whether this is the failure to find a file.
    pub fn is_not_found(&self) -> (res: bool)
        ensures
            res == (self matches Error::Io(e) && e.kind == IoErrorKind::NotFound),
    {
        if let Error::Io(err) = self {
            return err.kind == IoErrorKind::NotFound;
        }
        false
    }

    /// The failure to find a file.
    pub fn not_found() -> (res: Error)
        ensures
            res matches Error::Io(e) && e.kind == IoErrorKind::NotFound && e.message@
                == "path not found"@,
    {
        Error::Io(IoError::new(IoErrorKind::NotFound, "path not found".to_owned()))
    }

    /// The message that describes the error.
    pub fn message(&self) -> (res: String)
        ensures
            res@ == (match self {
                Error::Io(e) => e.message@,
                Error::Env(VarError::NotPresent) => "environment variable not found"@,
                Error::Env(VarError::NotUnicode(s)) => "environment variable was not valid unicode: "@
                    + s@,
            }),
    {
        match self {
            Error::Io(err) => string_of_all(&chars_of(err.message.as_str())),
            Error::Env(err) => err.message(),
        }
    }
}

} // verus!
