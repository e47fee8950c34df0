use vstd::prelude::*;

use crate::error::ShadowError;

verus! {

/// Overlays larger than this many bytes are refused without `--force`.
pub const SIZE_LIMIT: u64 = 1048576;

/// How many leading bytes the binary check reads.
pub const BINARY_CHECK_BYTES: usize = 8192;

/// A file looks binary when a zero byte occurs among its first 8 KiB.
pub open spec fn looks_binary(b: Seq<u8>) -> bool {
    exists|i: int| 0 <= i < b.len() && i < BINARY_CHECK_BYTES && b[i] == 0
}

/// Whether the file whose content starts with `head` looks binary.
pub fn is_binary(head: &[u8]) -> (r: bool)
    ensures
        r == looks_binary(head@),
{
    let n = if head.len() < BINARY_CHECK_BYTES {
        head.len()
    } else {
        BINARY_CHECK_BYTES
    };
    let mut i: usize = 0;
    while i < n
        invariant
            n <= head@.len(),
            n <= BINARY_CHECK_BYTES,
            n == head@.len() || n == BINARY_CHECK_BYTES,
            i <= n,
            forall|j: int| 0 <= j < i ==> head@[j] != 0,
        decreases n - i,
    {
        if head[i] == 0 {
            return true;
        }
        i = i + 1;
    }
    false
}

/// The size gate: a file over the limit is refused unless `force` is given.
pub fn check_size(path: &str, size: u64, force: bool) -> (r: Result<(), ShadowError>)
    ensures
        size > SIZE_LIMIT && !force ==> (r matches Err(ShadowError::FileTooLarge(p, s, l)) && p@
            == path@ && s == size && l == SIZE_LIMIT),
        !(size > SIZE_LIMIT && !force) ==> r is Ok,
{
    if size > SIZE_LIMIT && !force {
        return Err(ShadowError::FileTooLarge(String::from_str(path), size, SIZE_LIMIT));
    }
    Ok(())
}

} // verus!
