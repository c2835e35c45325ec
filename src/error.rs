use vstd::prelude::*;

verus! {

/// What went wrong.
#[derive(Clone, Copy, Debug, PartialEq, Eq, Structural)]
pub enum ErrorKind {
    /// A change-log line has no recognisable shape or operation code.
    MalformedRecord,
    /// A checkpoint line has no separator or no decimal id.
    MalformedCheckpoint,
    /// A record cannot be written as a line that reads back the same.
    UnwritableRecord,
}

/// The error reported by the store.
#[derive(Debug)]
pub struct DatabaseError {
    kind: ErrorKind,
    message: String,
}

impl DatabaseError {
    pub closed spec fn spec_kind(&self) -> ErrorKind {
        self.kind
    }

    pub closed spec fn spec_message(&self) -> Seq<char> {
        self.message@
    }

    /// A malformed-record error with the given message.
    pub fn new(message: &str) -> (r: DatabaseError)
        ensures
            r.spec_kind() == ErrorKind::MalformedRecord,
            r.spec_message() == message@,
    {
        DatabaseError { kind: ErrorKind::MalformedRecord, message: message.to_owned() }
    }

    /// An error of the given kind with the given message.
    pub fn of_kind(kind: ErrorKind, message: &str) -> (r: DatabaseError)
        ensures
            r.spec_kind() == kind,
            r.spec_message() == message@,
    {
        DatabaseError { kind, message: message.to_owned() }
    }

    pub fn kind(&self) -> (r: ErrorKind)
        ensures
            r == self.spec_kind(),
    {
        self.kind
    }

    /// The text that describes the error.
    pub fn message(&self) -> (r: &str)
        ensures
            r@ == self.spec_message(),
    {
        self.message.as_str()
    }
}

} // verus!
