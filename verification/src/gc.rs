//! Removing a shard's data chunk by chunk: how a chunk is filled, and where
//! the next one starts. Reading the keys and deleting them is the caller's.

use vstd::prelude::*;

verus! {

/// A user key and one of its versions.
pub type KeyVersion = (Vec<u8>, u64);

/// Where the chunk after `chunk` starts: at the key of its last entry.
/// `None` after an empty chunk, which ends the removal.
pub open spec fn start_after(chunk: Seq<KeyVersion>) -> Option<Seq<u8>> {
    if chunk.len() == 0 {
        None
    } else {
        Some(chunk.last().0@)
    }
}

/// The key from which to collect the chunk after `chunk`, or `None` if
/// `chunk` is empty and the shard's data is gone.
pub fn next_start_key(chunk: &Vec<KeyVersion>) -> (start: Option<Vec<u8>>)
    ensures
        match start {
            Some(key) => start_after(chunk@) == Some(key@),
            None => start_after(chunk@) is None,
        },
{
    if chunk.len() == 0 {
        None
    } else {
        Some(chunk[chunk.len() - 1].0.clone())
    }
}

/// Adds all versions of one key to a chunk, and says whether the chunk has
/// reached `limit` entries and is to be closed. A chunk is only ever closed
/// between keys, so that it may grow beyond the limit.
pub fn take_versions(chunk: &mut Vec<KeyVersion>, versions: Vec<KeyVersion>, limit: usize) -> (full:
    bool)
    ensures
        final(chunk)@ == old(chunk)@ + versions@,
        full == (final(chunk)@.len() >= limit),
{
    let mut versions = versions;
    chunk.append(&mut versions);
    chunk.len() >= limit
}

} // verus!
