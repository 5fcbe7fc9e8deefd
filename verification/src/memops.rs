//! Fixed-window byte scanning and wide equality over short buffers.
//!
//! Every record is guaranteed by the input contract to fit inside a 64-byte
//! safety window, so scanning for a delimiter never has to look further
//! than 64 bytes ahead, and key equality never has to compare more than 64
//! bytes.

use vstd::prelude::*;

verus! {

/// The number of bytes of a buffer the fixed-size window covers.
pub open spec fn window(s: Seq<u8>) -> int {
    vstd::math::min(s.len() as int, 64)
}

/// Finds the first occurrence of `needle` within the window, if any.
pub(crate) fn find_in_window(haystack: &[u8], needle: u8) -> (r: Option<usize>)
    ensures
        match r {
            Some(i) => i < window(haystack@) && haystack@[i as int] == needle && forall|j: int|
                0 <= j < i ==> haystack@[j] != needle,
            None => forall|j: int| 0 <= j < window(haystack@) ==> haystack@[j] != needle,
        },
{
    let bound: usize = if haystack.len() < 64 {
        haystack.len()
    } else {
        64
    };
    let mut i: usize = 0;
    while i < bound
        invariant
            0 <= i <= bound,
            bound == window(haystack@),
            forall|j: int| 0 <= j < i ==> haystack@[j] != needle,
        decreases bound - i,
    {
        if haystack[i] == needle {
            return Some(i);
        }
        i = i + 1;
    }
    None
}

/// Offset of the first `NEEDLE` within the 64-byte window. The caller must
/// guarantee the byte is present there; every record is contractually
/// shorter than the window, so its terminator always is.
pub fn memchr64_unchecked<const NEEDLE: u8>(haystack: &[u8]) -> (r: usize)
    requires
        exists|j: int| 0 <= j < window(haystack@) && haystack@[j] == NEEDLE,
    ensures
        r < window(haystack@),
        haystack@[r as int] == NEEDLE,
        forall|j: int| 0 <= j < r ==> haystack@[j] != NEEDLE,
{
    match find_in_window(haystack, NEEDLE) {
        Some(i) => i,
        None => {
            proof {
                assert(false);
            }
            0
        },
    }
}

/// Whether `a` and `b` have the same length and agree on their first
/// `min(len, 32)` bytes.
pub fn memeq32_unchecked(a: &[u8], b: &[u8]) -> (r: bool)
    ensures
        r == (a@.len() == b@.len() && forall|j: int|
            0 <= j < vstd::math::min(a@.len() as int, 32) ==> a@[j] == b@[j]),
{
    if a.len() != b.len() {
        return false;
    }
    let bound: usize = if a.len() < 32 {
        a.len()
    } else {
        32
    };
    let mut i: usize = 0;
    while i < bound
        invariant
            0 <= i <= bound,
            a@.len() == b@.len(),
            bound == vstd::math::min(a@.len() as int, 32),
            forall|j: int| 0 <= j < i ==> a@[j] == b@[j],
        decreases bound - i,
    {
        if a[i] != b[i] {
            return false;
        }
        i = i + 1;
    }
    true
}

/// Whether `a` and `b` have the same length and agree on their first
/// `min(len, 64)` bytes. For the keys this library stores, whose length
/// never exceeds the window, this is exact byte equality.
pub fn memeq64_unchecked(a: &[u8], b: &[u8]) -> (r: bool)
    ensures
        r == (a@.len() == b@.len() && forall|j: int|
            0 <= j < vstd::math::min(a@.len() as int, 64) ==> a@[j] == b@[j]),
{
    let res = memeq32_unchecked(a, b);
    if a.len() <= 32 {
        res
    } else {
        let r2 = res && memeq32_unchecked(
            vstd::slice::slice_subrange(a, 32, a.len()),
            vstd::slice::slice_subrange(b, 32, b.len()),
        );
        proof {
            if r2 {
                assert forall|j: int|
                    0 <= j < vstd::math::min(a@.len() as int, 64) implies a@[j] == b@[j] by {
                    if j >= 32 {
                        assert(a@.subrange(32, a@.len() as int)[j - 32] == a@[j]);
                        assert(b@.subrange(32, b@.len() as int)[j - 32] == b@[j]);
                    }
                }
            }
        }
        r2
    }
}

} // verus!
