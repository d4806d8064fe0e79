//! The filesystem boundary: discovery of the non-hidden files under a root
//! and the per-file scan. The walk, the canonicalization and the content read
//! are calls into outside crates and are trusted at their stated interface;
//! everything that decides -- the hidden-name rule, duplicate-path removal,
//! and the assembly of scan results -- is verified.

use vstd::prelude::*;
use vstd::string::StringSliceAdditionalSpecFns;

use crate::meta::{DiscoveredEntry, ResourceId, ResourceMeta};
use crate::table::kv_distinct;

verus! {

/// The hidden-name rule on a leaf name's bytes: the name starts with a dot.
/// A dot is one byte in UTF-8 and never a continuation byte, so the first
/// byte decides.
pub open spec fn hidden_name(bytes: Seq<u8>) -> bool {
    bytes.len() > 0 && bytes[0] == 46u8
}

/// Is this leaf name hidden, that is, does it start with a dot?
pub fn is_hidden(name: &str) -> (r: bool)
    ensures
        r == hidden_name(name.spec_bytes()),
{
    let b = name.as_bytes();
    b.len() > 0 && b[0] == 46
}

/// Relies on canonical_path::CanonicalPathBuf::canonicalize: resolves a path
/// to its absolute, symlink-free form, failing when the path does not exist
/// or cannot be read; a result that is not valid UTF-8 is treated as a
/// failure. Used only to tell a readable root from a catastrophic one and to
/// key entries; nothing is promised of the returned text.
#[verifier::external_body]
pub(crate) fn canonicalize_str(path: &String) -> (r: Option<String>) {
    let c = canonical_path::CanonicalPathBuf::canonicalize(path.as_str()).ok()?;
    Some(c.as_path().to_str()?.to_owned())
}

/// Declares walkdir::DirEntry, the walker's per-entry handle, so that the
/// timestamp wrapper below can take one; it stays opaque.
#[verifier::external_type_specification]
#[verifier::external_body]
pub struct ExDirEntry(walkdir::DirEntry);

/// Relies on walkdir::DirEntry::metadata and std's filesystem timestamp: the
/// entry's modification time as nanoseconds since the Unix epoch, None when
/// it cannot be read or precedes the epoch.
#[verifier::external_body]
fn entry_mtime(e: &walkdir::DirEntry) -> (r: Option<u64>) {
    let t = e.metadata().ok()?.modified().ok()?;
    Some(t.duration_since(std::time::UNIX_EPOCH).ok()?.as_nanos() as u64)
}

/// Relies on walkdir::WalkDir: walks the tree under `root` recursively,
/// skipping branches that fail to read; `filter_entry` prunes every entry
/// whose leaf name is hidden, so nothing under a hidden directory is
/// reached. The hidden-name rule itself is the verified `is_hidden`; a name
/// that is not valid UTF-8 counts as not hidden. Relies on
/// canonical_path::CanonicalPathBuf::canonicalize for each kept
/// non-directory entry (an entry it fails on is dropped; one whose timestamp
/// fails is kept, with no timestamp). The result depends on the disk at call
/// time, so nothing is promised of it; callers first make the paths
/// distinct.
#[verifier::external_body]
pub(crate) fn discover_paths(root: &String) -> (r: Vec<DiscoveredEntry>) {
    walkdir::WalkDir::new(root.as_str())
        .into_iter()
        .filter_entry(|e| !e.file_name().to_str().map(|n| is_hidden(n)).unwrap_or(false))
        .filter_map(|res| {
            let e = res.ok()?;
            if e.file_type().is_dir() {
                return None;
            }
            let c = canonical_path::CanonicalPathBuf::canonicalize(e.path()).ok()?;
            Some(DiscoveredEntry { path: c.as_path().to_str()?.to_owned(), modified: entry_mtime(&e) })
        })
        .collect()
}

/// Relies on fs_err::read for the file's bytes and on crc32fast::hash for
/// the checksum; the identity pairs the byte count with the checksum, so
/// files with equal content receive equal identities. None when the file
/// cannot be read; the value depends on the disk at call time, so nothing
/// more is promised.
#[verifier::external_body]
pub(crate) fn compute_id(path: &String) -> (r: Option<ResourceId>) {
    match fs_err::read(path.as_str()) {
        Ok(bytes) => Some(
            ResourceId { data_size: bytes.len() as u64, crc32: crc32fast::hash(&bytes) },
        ),
        Err(_) => None,
    }
}

/// No two entries of the sequence share a canonical path.
pub open spec fn entry_keys_distinct(s: Seq<DiscoveredEntry>) -> bool {
    forall|i: int, j: int| 0 <= i < j < s.len() ==> s[i].path@ !== s[j].path@
}

/// The position of `path` among the entries, if one carries it.
pub fn find_entry(v: &Vec<DiscoveredEntry>, path: &String) -> (r: Option<usize>)
    ensures
        match r {
            Some(i) => i < v@.len() && v@[i as int].path@ == path@,
            None => forall|i: int| 0 <= i < v@.len() ==> v@[i].path@ != path@,
        },
{
    let mut i: usize = 0;
    while i < v.len()
        invariant
            i <= v@.len(),
            forall|j: int| 0 <= j < i ==> v@[j].path@ != path@,
        decreases v@.len() - i,
    {
        if v[i].path == *path {
            return Some(i);
        }
        i = i + 1;
    }
    None
}

/// Does some entry of `s` carry canonical path `k`?
pub open spec fn has_entry_key(s: Seq<DiscoveredEntry>, k: Seq<char>) -> bool {
    exists|j: int| 0 <= j < s.len() && s[j].path@ == k
}

/// Every entry of `out` repeats the path and timestamp of some entry of
/// `entries`.
pub open spec fn entries_sourced(out: Seq<DiscoveredEntry>, entries: Seq<DiscoveredEntry>) -> bool {
    forall|j: int| #![trigger out[j]] 0 <= j < out.len() ==> exists|i: int|
        #![trigger entries[i]]
        0 <= i < entries.len() && entries[i].path@ == out[j].path@ && entries[i].modified
            == out[j].modified
}

/// Every path among the first `n` entries of `entries` is a key of `out`.
pub open spec fn keys_covered(entries: Seq<DiscoveredEntry>, out: Seq<DiscoveredEntry>, n: int) -> bool {
    forall|k: int| #![trigger entries[k]] 0 <= k < n ==> has_entry_key(out, entries[k].path@)
}

/// Every pair of `out` carries the path of one of the first `n` entries of
/// `entries`, and that entry's timestamp.
pub open spec fn scan_sourced(
    out: Seq<(String, ResourceMeta)>,
    entries: Seq<DiscoveredEntry>,
    n: int,
) -> bool {
    forall|j: int| #![trigger out[j]] 0 <= j < out.len() ==> exists|k: int|
        #![trigger entries[k]]
        0 <= k < n && entries[k].path@ == out[j].0@ && entries[k].modified == Some(
            out[j].1.modified,
        )
}

/// Make the discovered paths distinct: a walk can reach one file under two
/// spellings (through a symlinked directory), and the index keys each
/// canonical path once. Every kept entry is one of the given entries, and
/// every given path is kept under exactly one entry.
pub fn dedup_entries(entries: Vec<DiscoveredEntry>) -> (r: Vec<DiscoveredEntry>)
    ensures
        entry_keys_distinct(r@),
        entries_sourced(r@, entries@),
        keys_covered(entries@, r@, entries@.len() as int),
{
    let mut out: Vec<DiscoveredEntry> = Vec::new();
    let mut i: usize = 0;
    while i < entries.len()
        invariant
            i <= entries@.len(),
            entry_keys_distinct(out@),
            entries_sourced(out@, entries@),
            keys_covered(entries@, out@, i as int),
        decreases entries@.len() - i,
    {
        match find_entry(&out, &entries[i].path) {
            Some(_) => {
                proof {
                    assert(has_entry_key(out@, entries@[i as int].path@));
                }
            },
            None => {
                let ghost out0 = out@;
                out.push(
                    DiscoveredEntry {
                        path: entries[i].path.clone(),
                        modified: entries[i].modified,
                    },
                );
                proof {
                    assert(forall|j: int| 0 <= j < out0.len() ==> out@[j] == #[trigger] out0[j]);
                    assert(out@[out@.len() - 1].path@ == entries@[i as int].path@);
                    assert(has_entry_key(out@, entries@[i as int].path@));
                    assert forall|k: int| 0 <= k < i + 1 implies has_entry_key(
                        out@,
                        #[trigger] entries@[k].path@,
                    ) by {
                        if k < i as int {
                            assert(has_entry_key(out0, entries@[k].path@));
                            let j = choose|j: int|
                                0 <= j < out0.len() && out0[j].path@ == entries@[k].path@;
                            assert(out@[j].path@ == entries@[k].path@);
                        }
                    }
                }
            },
        }
        i = i + 1;
    }
    out
}

/// Scan each discovered entry: the content identity comes from the trusted
/// per-file read, the timestamp from the entry. An entry whose content
/// cannot be read, or whose timestamp is unknown, is dropped: partial
/// results are expected and correct. Every result pair carries the path and
/// timestamp of one input entry; the paths stay distinct.
pub fn scan_metadata(entries: Vec<DiscoveredEntry>) -> (r: Vec<(String, ResourceMeta)>)
    requires
        entry_keys_distinct(entries@),
    ensures
        kv_distinct(r@),
        scan_sourced(r@, entries@, entries@.len() as int),
{
    let mut out: Vec<(String, ResourceMeta)> = Vec::new();
    let mut i: usize = 0;
    while i < entries.len()
        invariant
            i <= entries@.len(),
            entry_keys_distinct(entries@),
            kv_distinct(out@),
            scan_sourced(out@, entries@, i as int),
        decreases entries@.len() - i,
    {
        match entries[i].modified {
            Some(t) => {
                match compute_id(&entries[i].path) {
                    Some(id) => {
                        let ghost out0 = out@;
                        out.push((entries[i].path.clone(), ResourceMeta { id, modified: t }));
                        proof {
                            assert(forall|j: int|
                                0 <= j < out0.len() ==> out@[j] == #[trigger] out0[j]);
                            assert(out@[out@.len() - 1].0@ == entries@[i as int].path@);
                        }
                    },
                    None => {},
                }
            },
            None => {},
        }
        i = i + 1;
    }
    out
}

} // verus!
