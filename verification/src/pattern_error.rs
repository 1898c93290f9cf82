//! Why a pattern was refused.
use vstd::prelude::*;

verus! {

/// An error returned when a pattern cannot be used.
#[derive(Debug, Clone, Copy)]
pub struct PatternError {
    offset: usize,
    message: &'static str,
}

/// What a refusal says: the offset of the invalid construct and the
/// description of it.
pub ghost struct Refusal {
    pub offset: int,
    pub message: Seq<char>,
}

impl View for PatternError {
    type V = Refusal;

    closed spec fn view(&self) -> Refusal {
        Refusal { offset: self.offset as int, message: self.message@ }
    }
}

impl PatternError {
    /// Builds the refusal of the construct at `offset`.
    pub fn new(offset: usize, message: &'static str) -> (error: Self)
        ensures
            error@ == (Refusal { offset: offset as int, message: message@ }),
    {
        PatternError { offset, message }
    }

    /// Zero-based byte offset of the invalid construct.
    pub fn offset(&self) -> (offset: usize)
        ensures
            offset == self@.offset,
    {
        self.offset
    }

    /// Description of the invalid construct.
    pub fn message(&self) -> (message: &'static str)
        ensures
            message@ == self@.message,
    {
        self.message
    }
}

} // verus!
