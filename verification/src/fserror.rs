use vstd::prelude::*;

verus! {

/// The failure categories of the storage layer.
#[derive(Debug, Clone, Copy, PartialEq, Eq, Structural)]
pub enum S3FSErrorKind {
    InvalidBucketName,
    InvalidObjectKey,
    BucketNotFound,
    BucketAlreadyExists,
    KeyNotFound,
    InvalidMeta,
    IncompleteWrite,
    InputOutput,
    ObjectTooLarge,
}

/// A storage-layer error: a kind plus an optional detail message.
#[derive(Debug)]
pub struct S3FSError {
    pub kind: S3FSErrorKind,
    pub message: Option<String>,
}

impl S3FSError {
    pub fn io(msg: Option<String>) -> (r: S3FSError)
        ensures
            r.kind == S3FSErrorKind::InputOutput,
            r.message == msg,
    {
        S3FSError { kind: S3FSErrorKind::InputOutput, message: msg }
    }

    pub fn invalid_bucket_name(name: &str) -> (r: S3FSError)
        ensures
            r.kind == S3FSErrorKind::InvalidBucketName,
            r.message matches Some(m) && m@ == name@,
    {
        S3FSError { kind: S3FSErrorKind::InvalidBucketName, message: Some(name.to_owned()) }
    }

    pub fn bucket_not_found(name: &str) -> (r: S3FSError)
        ensures
            r.kind == S3FSErrorKind::BucketNotFound,
            r.message matches Some(m) && m@ == name@,
    {
        S3FSError { kind: S3FSErrorKind::BucketNotFound, message: Some(name.to_owned()) }
    }

    pub fn of_kind_and_message(kind: S3FSErrorKind, message: &str) -> (r: S3FSError)
        ensures
            r.kind == kind,
            r.message matches Some(m) && m@ == message@,
    {
        S3FSError { kind, message: Some(message.to_owned()) }
    }

    pub fn of_kind(kind: S3FSErrorKind) -> (r: S3FSError)
        ensures
            r.kind == kind,
            r.message is None,
    {
        S3FSError { kind, message: None }
    }

    pub fn boxed(self) -> (r: Box<Self>)
        ensures
            *r == self,
    {
        Box::new(self)
    }
}

} // verus!
