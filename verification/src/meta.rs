//! The plain values the index is built from: content identities, metadata
//! snapshots, discovered filesystem entries, and the error of a failed pass.

use vstd::prelude::*;

verus! {

/// A value derived from a file's content: equal content gives equal identity.
/// The fields pair the byte count of the file with a checksum of its bytes;
/// nothing in the index reads them apart, identity equality is all that matters.
#[derive(Clone, Copy, PartialEq, Eq, Hash, Debug, Structural)]
pub struct ResourceId {
    pub data_size: u64,
    pub crc32: u32,
}

impl View for ResourceId {
    type V = ResourceId;

    open spec fn view(&self) -> ResourceId {
        *self
    }
}

/// The immutable snapshot a scan produces for one path: the content identity
/// and the modification timestamp (nanoseconds since the Unix epoch) at scan
/// time.
#[derive(Clone, Copy, PartialEq, Eq, Debug, Structural)]
pub struct ResourceMeta {
    pub id: ResourceId,
    pub modified: u64,
}

/// One non-directory entry found by walking the root: its canonical path and
/// its modification timestamp, `None` when the timestamp could not be read.
#[derive(Debug)]
pub struct DiscoveredEntry {
    pub path: String,
    pub modified: Option<u64>,
}

/// The one catastrophic failure of a pass: the root itself does not exist or
/// cannot be resolved. Per-entry failures never surface here; they only make
/// the result smaller.
#[derive(Clone, Copy, PartialEq, Eq, Debug, Structural)]
pub enum IndexError {
    RootUnreadable,
}

} // verus!
