//! The one error type of the store.

use vstd::prelude::*;
use vstd::string::StringExecFns;
use crate::codec::{cause_text, error_text};

verus! {

/// What went wrong.
#[derive(Debug, Clone, Copy, PartialEq, Eq, Structural)]
pub enum ErrorKind {
    /// A value in the store file is not valid JSON.
    Decode,
    /// A value could not be written as JSON.
    Encode,
    /// A filesystem operation failed.
    Io,
}

/// An error of the store: its kind, and a message for people.
#[derive(Debug)]
pub struct DBError {
    pub kind: ErrorKind,
    pub message: String,
}

/// The text that opens the message of an error of each kind.
pub open spec fn message_prefix(kind: ErrorKind) -> Seq<char> {
    match kind {
        ErrorKind::Decode => "Serde error: "@,
        ErrorKind::Encode => "Serde error: "@,
        ErrorKind::Io => "IO error: "@,
    }
}

impl DBError {
    /// An error of kind `kind` whose message is the kind's prefix, then `detail`.
    pub fn new(kind: ErrorKind, detail: &str) -> (e: DBError)
        ensures
            e.kind == kind,
            e.message@ == message_prefix(kind) + detail@,
            e.has_prefix(),
    {
        assert((message_prefix(kind) + detail@).take(message_prefix(kind).len() as int)
            =~= message_prefix(kind));
        let prefix = match kind {
            ErrorKind::Decode => "Serde error: ",
            ErrorKind::Encode => "Serde error: ",
            ErrorKind::Io => "IO error: ",
        };
        DBError { kind, message: String::from_str(prefix).concat(detail) }
    }

    /// A filesystem failure, described by `detail`.
    pub fn io(detail: &str) -> (e: DBError)
        ensures
            e.kind == ErrorKind::Io,
            e.message@ == message_prefix(ErrorKind::Io) + detail@,
    {
        DBError::new(ErrorKind::Io, detail)
    }

    /// A value that did not decode; the message carries what the decoder said.
    pub fn decode(cause: &serde_json::Error) -> (e: DBError)
        ensures
            e.kind == ErrorKind::Decode,
            e.message@ == message_prefix(ErrorKind::Decode) + error_text(*cause),
            e.has_prefix(),
    {
        let detail = cause_text(cause);
        DBError::new(ErrorKind::Decode, detail.as_str())
    }

    /// A value that did not encode; the message carries what the encoder said.
    pub fn encode(cause: &serde_json::Error) -> (e: DBError)
        ensures
            e.kind == ErrorKind::Encode,
            e.message@ == message_prefix(ErrorKind::Encode) + error_text(*cause),
            e.has_prefix(),
    {
        let detail = cause_text(cause);
        DBError::new(ErrorKind::Encode, detail.as_str())
    }

    /// The message opens with the prefix of the error's kind.
    pub open spec fn has_prefix(&self) -> bool {
        let prefix = message_prefix(self.kind);
        prefix.len() <= self.message@.len() && self.message@.take(prefix.len() as int) == prefix
    }

    /// The kind of the error.
    pub fn kind(&self) -> (kind: ErrorKind)
        ensures
            kind == self.kind,
    {
        self.kind
    }

    /// The message, as a string of its own.
    pub fn to_text(&self) -> (text: String)
        ensures
            text@ == self.message@,
    {
        self.message.clone()
    }
}

} // verus!
