use vstd::prelude::*;

use crate::error::ShadowError;
use crate::fs_util::{check_size, is_binary, looks_binary, SIZE_LIMIT};

verus! {

/// The gates of overlay registration, in order: the file must be tracked, must
/// not look binary (`head` is its first bytes), and must be within the size
/// limit unless `force` is given. `shown_path` names the file in the size error.
pub fn add_overlay_checks(
    normalized: &str,
    in_index: bool,
    head: &[u8],
    size: u64,
    force: bool,
    shown_path: &str,
) -> (r: Result<(), ShadowError>)
    ensures
        !in_index ==> (r matches Err(ShadowError::FileNotTracked(p)) && p@ == normalized@),
        in_index && looks_binary(head@) ==> (r matches Err(ShadowError::BinaryFile(p)) && p@
            == normalized@),
        in_index && !looks_binary(head@) && size > SIZE_LIMIT && !force ==> (r matches Err(
            ShadowError::FileTooLarge(p, s, l),
        ) && p@ == shown_path@ && s == size && l == SIZE_LIMIT),
        in_index && !looks_binary(head@) && !(size > SIZE_LIMIT && !force) ==> r is Ok,
{
    if !in_index {
        return Err(ShadowError::FileNotTracked(String::from_str(normalized)));
    }
    if is_binary(head) {
        return Err(ShadowError::BinaryFile(String::from_str(normalized)));
    }
    check_size(shown_path, size, force)
}

/// Refuse a phantom path that git already has in its index.
pub fn add_phantom_checks(normalized: &str, in_index: bool) -> (r: Result<(), ShadowError>)
    ensures
        in_index ==> (r matches Err(ShadowError::AlreadyTracked(p)) && p@ == normalized@),
        !in_index ==> r is Ok,
{
    if in_index {
        return Err(ShadowError::AlreadyTracked(String::from_str(normalized)));
    }
    Ok(())
}

} // verus!
