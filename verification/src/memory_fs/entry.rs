//! The metadata of the entries of the in-memory tree.

use crate::file::Metadata;
use crate::tree::Entry;
use vstd::prelude::*;

verus! {

/// The metadata that an entry of the in-memory tree reports: a directory, or a file of the
/// length of its bytes.
pub open spec fn metadata_of(entry: Entry<Vec<u8>>) -> Metadata {
    match entry {
        Entry::Directory(_) => Metadata::directory(),
        Entry::UserData(bytes) => Metadata::file(bytes@.len() as u64),
    }
}

/// Computes the metadata of an entry of the in-memory tree.
pub fn entry_metadata(entry: &Entry<Vec<u8>>) -> (m: Metadata)
    ensures
        m == metadata_of(*entry),
{
    match entry {
        Entry::Directory(_) => Metadata::directory(),
        Entry::UserData(bytes) => Metadata::file(bytes.len() as u64),
    }
}

} // verus!
