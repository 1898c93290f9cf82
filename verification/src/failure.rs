//! Filesystem failures as plain values.
use vstd::prelude::*;

verus! {

/// What kind of failure a filesystem call reported.
#[derive(Debug, Clone, Copy, PartialEq, Eq, Structural)]
pub enum FailureKind {
    /// Nothing is there.
    NotFound,
    /// A component on the way is no directory.
    NotADirectory,
    /// The way leads through too many links, or in circles.
    FilesystemLoop,
    /// The caller may not look.
    PermissionDenied,
    /// What was read breaks a limit.
    InvalidData,
    /// What was asked makes no sense for this file.
    InvalidInput,
    /// The call is not available here.
    Unsupported,
    /// Anything else.
    Other,
}

/// One failed filesystem call: its kind, and the words that go with it.
#[derive(Debug)]
pub struct Failure {
    pub kind: FailureKind,
    pub message: String,
    /// The host's own number for the failure, where it has one.
    pub code: Option<i32>,
}

impl Failure {
    /// A failure of this kind, in these words.
    pub fn new(kind: FailureKind, message: &str) -> (result: Self)
        ensures
            result.kind == kind,
            result.message@ == message@,
            result.code is None,
    {
        Failure { kind, message: message.to_string(), code: None }
    }

    /// The failure with the host's own number for it, where it has one.
    pub fn with_code(self, code: Option<i32>) -> (result: Self)
        ensures
            result == (Failure { code, ..self }),
    {
        Failure { code, ..self }
    }

    /// What kind of failure it is.
    pub fn kind(&self) -> (result: FailureKind)
        ensures
            result == self.kind,
    {
        self.kind
    }
}

} // verus!
