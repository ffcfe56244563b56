//! What can go wrong.

use crate::path::FsPath;
use vstd::prelude::*;

verus! {

/// The kinds of failure of a file system operation that are told apart.
#[derive(Clone, Copy, Debug, PartialEq, Eq, Structural)]
pub enum FailureKind {
    NotFound,
    CrossesDevices,
    Other,
}

/// A failed file system operation or a command that could not be started.
#[derive(Debug, PartialEq, Eq)]
pub struct Failure {
    pub kind: FailureKind,
    pub message: String,
}

pub struct FailureView {
    pub kind: FailureKind,
    pub message: Seq<char>,
}

impl View for Failure {
    type V = FailureView;

    open spec fn view(&self) -> FailureView {
        FailureView { kind: self.kind, message: self.message@ }
    }
}

impl Clone for Failure {
    fn clone(&self) -> (copy: Failure)
        ensures
            copy@ == self@,
    {
        Failure { kind: self.kind, message: self.message.clone() }
    }
}

#[derive(Debug, PartialEq, Eq)]
pub enum Error {
    /// A repository is in a state that must not be touched, or a Git command failed.
    UnsafeGit(String),
    /// A path cannot be used.
    Path(String),
    /// Something stands where something new was to be made.
    AlreadyExists(FsPath),
    /// The operating system refused.
    Io(Failure),
    /// The database refused.
    Database(String),
    /// A row would break a rule of the registry: an id or a path that is taken, or a parent that
    /// does not exist.
    Constraint,
    /// An answer was not of the shape that the request asks for.
    Unexpected,
}

pub enum ErrorView {
    UnsafeGit(Seq<char>),
    Path(Seq<char>),
    AlreadyExists(Seq<u8>),
    Io(FailureView),
    Database(Seq<char>),
    Constraint,
    Unexpected,
}

impl View for Error {
    type V = ErrorView;

    open spec fn view(&self) -> ErrorView {
        match self {
            Error::UnsafeGit(message) => ErrorView::UnsafeGit(message@),
            Error::Path(message) => ErrorView::Path(message@),
            Error::AlreadyExists(path) => ErrorView::AlreadyExists(path@),
            Error::Io(failure) => ErrorView::Io(failure@),
            Error::Database(message) => ErrorView::Database(message@),
            Error::Constraint => ErrorView::Constraint,
            Error::Unexpected => ErrorView::Unexpected,
        }
    }
}

impl Clone for Error {
    fn clone(&self) -> (copy: Error)
        ensures
            copy@ == self@,
    {
        match self {
            Error::UnsafeGit(message) => Error::UnsafeGit(message.clone()),
            Error::Path(message) => Error::Path(message.clone()),
            Error::AlreadyExists(path) => Error::AlreadyExists(path.clone()),
            Error::Io(failure) => Error::Io(failure.clone()),
            Error::Database(message) => Error::Database(message.clone()),
            Error::Constraint => Error::Constraint,
            Error::Unexpected => Error::Unexpected,
        }
    }
}

/// What a result says once it is read through the views.
pub open spec fn result_view<T: DeepView>(result: Result<T, Error>) -> Result<T::V, ErrorView> {
    match result {
        Ok(value) => Ok(value.deep_view()),
        Err(error) => Err(error@),
    }
}

} // verus!
