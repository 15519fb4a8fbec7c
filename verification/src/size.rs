//! The length of a folded content line.
use vstd::prelude::*;
use crate::boundary::LIMIT;

verus! {

/// The bytes that one line break adds.
pub const BREAK_LEN: usize = 3;

/// The number of line breaks counted for a content line of `len` bytes: one
/// for every `LIMIT - 1` bytes past the second.
pub open spec fn break_count(len: nat) -> nat {
    if len >= 2 {
        ((len - 2) / (LIMIT - 1)) as nat
    } else {
        0
    }
}

/// The length of the folded form of a content line of `len` bytes.
pub open spec fn folded_size(len: nat) -> nat {
    (len + BREAK_LEN * break_count(len)) as nat
}

/// Computes the length that a content line of `len` bytes has once folded,
/// without folding it.
pub fn size(len: usize) -> (r: usize)
    requires
        folded_size(len as nat) <= usize::MAX,
    ensures
        r == folded_size(len as nat),
{
    let breaks: usize = if len >= 2 {
        (len - 2) / (LIMIT - 1)
    } else {
        0
    };
    len + breaks * BREAK_LEN
}

} // verus!
