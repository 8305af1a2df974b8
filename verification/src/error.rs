//! What can go wrong inside the library.

use vstd::prelude::*;

verus! {

/// `base64::DecodeError`, the error of the base-64 engine. The library
/// carries it and never looks into it.
#[verifier::external_type_specification]
#[verifier::external_body]
pub struct ExDecodeError(base64::DecodeError);

/// A failure of the codec.
#[derive(Debug, PartialEq, Eq)]
pub enum Error {
    /// The text after a blob's prefix is not base-64.
    Base64DecodeError(base64::DecodeError),
    /// The database holds something that the schema extractor does not know
    /// how to carry over.
    EdgeCase(String),
    /// A file of the directory layout breaks its grammar.
    CorruptedDataFile(String),
}

/// The mathematical content of an [`Error`]: its kind and its message.
pub enum ErrorModel {
    Base64DecodeError,
    EdgeCase(Seq<char>),
    CorruptedDataFile(Seq<char>),
}

impl View for Error {
    type V = ErrorModel;

    open spec fn view(&self) -> ErrorModel {
        match self {
            Error::Base64DecodeError(_) => ErrorModel::Base64DecodeError,
            Error::EdgeCase(m) => ErrorModel::EdgeCase(m@),
            Error::CorruptedDataFile(m) => ErrorModel::CorruptedDataFile(m@),
        }
    }
}

/// Three pieces of text in a row: a message around what it is about.
pub fn message(head: &str, body: &str, tail: &str) -> (r: String)
    ensures
        r@ == head@ + body@ + tail@,
{
    let mut out = String::from_str(head);
    out.append(body);
    out.append(tail);
    out
}

} // verus!
