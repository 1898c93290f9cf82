//! Substring search.
use vstd::prelude::*;

verus! {

/// Whether `needle` stands in `haystack` at `at`.
pub open spec fn occurs_at(haystack: Seq<u8>, needle: Seq<u8>, at: int) -> bool {
    0 <= at && at + needle.len() <= haystack.len() && haystack.subrange(at, at + needle.len())
        == needle
}

/// Whether `needle` stands anywhere in `haystack`.
pub open spec fn occurs_in(haystack: Seq<u8>, needle: Seq<u8>) -> bool {
    exists|at: int| #[trigger] occurs_at(haystack, needle, at)
}

/// The first occurrence of `needle` in `haystack`.
///
/// Calls `memchr::memmem::find`. Claimed of it: a result is a position at
/// which the needle stands, with none before it, and there is no result
/// exactly where the needle stands nowhere. An empty needle stands at the
/// start.
#[verifier::external_body]
pub(crate) fn find(haystack: &[u8], needle: &[u8]) -> (result: Option<usize>)
    ensures
        match result {
            Some(at) => occurs_at(haystack@, needle@, at as int) && forall|i: int|
                0 <= i < at ==> !#[trigger] occurs_at(haystack@, needle@, i),
            None => !occurs_in(haystack@, needle@),
        },
{
    memchr::memmem::find(haystack, needle)
}

/// The first occurrence of one byte in `haystack`.
///
/// Calls `memchr::memchr`. Claimed of it: a result is a position that holds
/// the byte, with none before it, and there is no result exactly where the
/// byte does not occur.
#[verifier::external_body]
pub(crate) fn find_byte(needle: u8, haystack: &[u8]) -> (result: Option<usize>)
    ensures
        match result {
            Some(at) => at < haystack@.len() && haystack@[at as int] == needle && forall|i: int|
                0 <= i < at ==> haystack@[i] != needle,
            None => forall|i: int| 0 <= i < haystack@.len() ==> haystack@[i] != needle,
        },
{
    memchr::memchr(needle, haystack)
}

} // verus!
