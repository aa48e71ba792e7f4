use vstd::prelude::*;

verus! {

/// The failure categories surfaced at the request-handling boundary.
#[derive(Debug, Clone, Copy, PartialEq, Eq, Structural)]
pub enum ErrorKind {
    InvalidKey,
    NotFound,
    InputOutput,
}

/// A request-level error: a kind plus a detail message.
#[derive(Debug)]
pub struct S3Error {
    pub kind: ErrorKind,
    pub message: String,
}

impl S3Error {
    pub fn invalid_key() -> (r: Self)
        ensures
            r.kind == ErrorKind::InvalidKey,
            r.message@ == Seq::<char>::empty(),
    {
        S3Error { kind: ErrorKind::InvalidKey, message: String::new() }
    }

    pub fn not_found() -> (r: Self)
        ensures
            r.kind == ErrorKind::NotFound,
            r.message@ == Seq::<char>::empty(),
    {
        S3Error { kind: ErrorKind::NotFound, message: String::new() }
    }

    pub fn io_error() -> (r: Self)
        ensures
            r.kind == ErrorKind::InputOutput,
            r.message@ == Seq::<char>::empty(),
    {
        S3Error { kind: ErrorKind::InputOutput, message: String::new() }
    }
}

} // verus!
