//! The error model: a structured failure kind, plus the human-readable
//! detail that some kinds carry.

use vstd::prelude::*;

use crate::model::DeErr;

verus! {

/// The kinds of framing failures.
#[derive(Debug, Clone, PartialEq, Eq)]
pub enum ErrorKind {
    /// A tag that the tag table does not know.
    UnknownType,
    /// A value of one kind stood where another kind was required; carries
    /// the name of the kind that was received.
    UnexpectedType(String),
    /// A type reference pointed outside the type table.
    OutOfTypeRefRange(usize),
    /// A definition reference pointed outside the definition table.
    OutOfDefinitionRange(usize),
}

/// A decode or encode failure.
#[derive(Debug, PartialEq, Eq)]
pub enum Error {
    /// A structural error in the byte stream.
    SyntaxError(ErrorKind),
    /// The input ended before the current value was complete.
    Eof,
    /// A string payload was not valid UTF-8.
    FromUtf8Error,
}

impl View for Error {
    type V = DeErr;

    /// The abstract failure this error stands for.  The message string of
    /// `UnexpectedType` is informational and not part of the model.
    open spec fn view(&self) -> DeErr {
        match self {
            Error::Eof => DeErr::Eof,
            Error::FromUtf8Error => DeErr::Utf8,
            Error::SyntaxError(k) => match k {
                ErrorKind::UnknownType => DeErr::UnknownTag,
                ErrorKind::UnexpectedType(_) => DeErr::Unexpected,
                ErrorKind::OutOfTypeRefRange(i) => DeErr::TypeRef(*i as int),
                ErrorKind::OutOfDefinitionRange(i) => DeErr::DefRef(*i as int),
            },
        }
    }
}

} // verus!
