//! The single-file path: on hosts with one flat trust file, the bundle is
//! that file's bytes, passed through unchanged.

use vstd::prelude::*;

verus! {

/// The bundle for a probed trust file: `read` is `None` where the probe
/// found no file, else what reading the file gave. No file is no error but
/// an empty bundle; the file's bytes, or the failure to read them, are
/// passed through as they are.
pub fn single_file_bundle<E>(read: Option<Result<Vec<u8>, E>>) -> (r: Result<Vec<u8>, E>)
    ensures
        read is None ==> r is Ok && r->Ok_0@.len() == 0,
        read is Some ==> r == read->0,
{
    match read {
        Some(result) => result,
        None => Ok(Vec::new()),
    }
}

} // verus!
