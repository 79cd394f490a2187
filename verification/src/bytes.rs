//! Byte scanning primitives backed by the `memchr` crate.

use vstd::prelude::*;

verus! {

/// The byte value of a line feed.
pub const NEWLINE: u8 = 0x0a;

/// `memchr::memchr`: the index of the first byte of `haystack` equal to
/// `needle`, or `None` when no byte is equal to it (the crate documents it as
/// equivalent to `haystack.iter().position(|&b| b == needle)`).
#[verifier::external_body]
pub(crate) fn first_byte(needle: u8, haystack: &[u8]) -> (r: Option<usize>)
    ensures
        match r {
            Some(i) => {
                &&& i < haystack@.len()
                &&& haystack@[i as int] == needle
                &&& forall|j: int| 0 <= j < i ==> haystack@[j] != needle
            },
            None => forall|j: int| 0 <= j < haystack@.len() ==> haystack@[j] != needle,
        },
{
    memchr::memchr(needle, haystack)
}

/// `memchr::memrchr`: the index of the last byte of `haystack` equal to
/// `needle`, or `None` when no byte is equal to it (the crate documents it as
/// equivalent to `haystack.iter().rposition(|&b| b == needle)`).
#[verifier::external_body]
pub(crate) fn last_byte(needle: u8, haystack: &[u8]) -> (r: Option<usize>)
    ensures
        match r {
            Some(i) => {
                &&& i < haystack@.len()
                &&& haystack@[i as int] == needle
                &&& forall|j: int| i < j < haystack@.len() ==> haystack@[j] != needle
            },
            None => forall|j: int| 0 <= j < haystack@.len() ==> haystack@[j] != needle,
        },
{
    memchr::memrchr(needle, haystack)
}

} // verus!
