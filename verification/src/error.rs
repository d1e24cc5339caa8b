//! What can go wrong while transcoding.

use std::string::FromUtf16Error;
use vstd::prelude::*;

verus! {

/// The kind of a failure, without its cause.
#[derive(Clone, Copy, Debug, PartialEq, Eq, Structural)]
pub enum ErrorKind {
    /// The code units are not well-formed UTF-16.
    Decode,
    /// The bytes do not make up a whole number of code units.
    BadLength,
    /// The byte-order mark that the wire form asks for is missing or is that
    /// of the other byte order.
    BomMismatch,
    /// The text handed to a writer ended inside a UTF-8 sequence.
    IncompleteTrailingSequence,
    /// The bytes handed to a writer are not UTF-8.
    InvalidUtf8,
}

/// A failure to transcode.
#[derive(Debug)]
pub enum DecodeUtf16Error {
    /// The code units are not well-formed UTF-16; holds what the validation
    /// reported.
    Decode(FromUtf16Error),
    /// The bytes do not make up a whole number of code units.
    BadLength,
    /// The byte-order mark that the wire form asks for is missing or is that
    /// of the other byte order.
    BomMismatch,
    /// The text handed to a writer ended inside a UTF-8 sequence.
    IncompleteTrailingSequence,
    /// The bytes handed to a writer are not UTF-8.
    InvalidUtf8,
}

/// The sentence that describes a kind of failure.
pub open spec fn message_of(kind: ErrorKind) -> Seq<char> {
    match kind {
        ErrorKind::Decode => "Could not decode UTF-16 input"@,
        ErrorKind::BadLength => "Input has invalid length to be a valid UTF-16 input."@,
        ErrorKind::BomMismatch => "Input does not start with the expected byte-order mark."@,
        ErrorKind::IncompleteTrailingSequence => "Text ends with an incomplete UTF-8 sequence."@,
        ErrorKind::InvalidUtf8 => "Text is not valid UTF-8."@,
    }
}

impl DecodeUtf16Error {
    /// The kind of this failure.
    pub open spec fn kind_of(self) -> ErrorKind {
        match self {
            DecodeUtf16Error::Decode(_) => ErrorKind::Decode,
            DecodeUtf16Error::BadLength => ErrorKind::BadLength,
            DecodeUtf16Error::BomMismatch => ErrorKind::BomMismatch,
            DecodeUtf16Error::IncompleteTrailingSequence => ErrorKind::IncompleteTrailingSequence,
            DecodeUtf16Error::InvalidUtf8 => ErrorKind::InvalidUtf8,
        }
    }

    /// The kind of this failure.
    pub fn kind(&self) -> (kind: ErrorKind)
        ensures
            kind == self.kind_of(),
    {
        match self {
            DecodeUtf16Error::Decode(_) => ErrorKind::Decode,
            DecodeUtf16Error::BadLength => ErrorKind::BadLength,
            DecodeUtf16Error::BomMismatch => ErrorKind::BomMismatch,
            DecodeUtf16Error::IncompleteTrailingSequence => ErrorKind::IncompleteTrailingSequence,
            DecodeUtf16Error::InvalidUtf8 => ErrorKind::InvalidUtf8,
        }
    }

    /// The sentence that describes this failure.
    pub fn message(&self) -> (text: String)
        ensures
            text@ == message_of(self.kind_of()),
    {
        match self {
            DecodeUtf16Error::Decode(_) => "Could not decode UTF-16 input".to_owned(),
            DecodeUtf16Error::BadLength => {
                "Input has invalid length to be a valid UTF-16 input.".to_owned()
            },
            DecodeUtf16Error::BomMismatch => {
                "Input does not start with the expected byte-order mark.".to_owned()
            },
            DecodeUtf16Error::IncompleteTrailingSequence => {
                "Text ends with an incomplete UTF-8 sequence.".to_owned()
            },
            DecodeUtf16Error::InvalidUtf8 => "Text is not valid UTF-8.".to_owned(),
        }
    }
}

} // verus!
