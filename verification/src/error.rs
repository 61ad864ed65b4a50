//! What can go wrong.

use crate::text::{chars, string};
use vstd::prelude::*;

verus! {

#[derive(Debug, Clone, PartialEq, Eq)]
pub enum Error {
    /// The key of the index is missing or is no key.
    KeyUnavailable(String),
    /// There is a key, but the index was not sealed with it.
    KeyMismatch(String),
    /// The file at `path` is not a sealed index.
    LegacyIndexFormat { path: String },
    Other(String),
}

/// An [`Error`] as a value of the specification.
pub enum Failure {
    KeyUnavailable(Seq<char>),
    KeyMismatch(Seq<char>),
    LegacyIndexFormat { path: Seq<char> },
    Other(Seq<char>),
}

impl View for Error {
    type V = Failure;

    open spec fn view(&self) -> Failure {
        match self {
            Error::KeyUnavailable(m) => Failure::KeyUnavailable(m@),
            Error::KeyMismatch(m) => Failure::KeyMismatch(m@),
            Error::LegacyIndexFormat { path } => Failure::LegacyIndexFormat { path: path@ },
            Error::Other(m) => Failure::Other(m@),
        }
    }
}

impl Failure {
    pub open spec fn message(self) -> Seq<char> {
        match self {
            Failure::KeyUnavailable(m) => m,
            Failure::KeyMismatch(m) => m,
            Failure::LegacyIndexFormat { path } => path
                + " is not a sealed index. Move it aside and re-index: your tools' own history is untouched and will be read again."@,
            Failure::Other(m) => m,
        }
    }
}

impl Error {
    /// The error in words.
    pub fn message(&self) -> (r: String)
        ensures
            r@ == self@.message(),
    {
        match self {
            Error::KeyUnavailable(m) => m.clone(),
            Error::KeyMismatch(m) => m.clone(),
            Error::LegacyIndexFormat { path } => concat(
                path.as_str(),
                " is not a sealed index. Move it aside and re-index: your tools' own history is untouched and will be read again.",
            ),
            Error::Other(m) => m.clone(),
        }
    }
}

pub(crate) fn concat(a: &str, b: &str) -> (r: String)
    ensures
        r@ == a@ + b@,
{
    let mut whole = chars(a);
    let tail = chars(b);
    whole.extend_from_slice(tail.as_slice());
    string(whole.as_slice())
}

} // verus!
