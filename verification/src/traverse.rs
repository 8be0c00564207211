//! The traversal engine's classification rule.
//!
//! The walk itself — reading directories, opening files, dispatching
//! hashing tasks to the worker pool and joining it — is I/O and lives
//! in the surrounding program. What is verified here is the rule it
//! must follow for every directory entry it meets: regular files are
//! hashed, directories are recursed into, and anything else — a
//! symlink, a special file, an entry that could not be classified — is
//! skipped and never hashed.

use vstd::prelude::*;

use crate::digest::{
    chunk_bytes, fingerprint_of_chunks, hex_upper_of, sha256_of, SHA256_MAX_INPUT_LEN,
};
use crate::file_index::FileIndex;
use crate::scan_model::{observe_step, Observation};

verus! {

/// What a directory entry turned out to be.
#[derive(Clone, Copy, Debug, PartialEq, Eq, Structural)]
pub enum EntryKind {
    File,
    Directory,
    Other,
}

/// What the traversal does with an entry.
#[derive(Clone, Copy, Debug, PartialEq, Eq, Structural)]
pub enum EntryAction {
    HashFile,
    Recurse,
    Skip,
}

/// The classification rule: files become hashing tasks, directories
/// are walked, everything else is left alone.
pub open spec fn action_for(kind: EntryKind) -> EntryAction {
    match kind {
        EntryKind::File => EntryAction::HashFile,
        EntryKind::Directory => EntryAction::Recurse,
        EntryKind::Other => EntryAction::Skip,
    }
}

/// Classify one directory entry.
pub fn classify_entry(kind: &EntryKind) -> (a: EntryAction)
    ensures
        a == action_for(*kind),
{
    match kind {
        EntryKind::File => EntryAction::HashFile,
        EntryKind::Directory => EntryAction::Recurse,
        EntryKind::Other => EntryAction::Skip,
    }
}

/// The computing part of one hashing task: fingerprint the content the
/// file's reader delivered as chunks, then observe the file in the
/// index — unless a counter would overflow its machine limit, in which
/// case the index is left untouched and `false` comes back.
pub fn record_file(idx: &mut FileIndex, chunks: &Vec<Vec<u8>>, path: String, size: u64) -> (ok:
    bool)
    requires
        old(idx).wf(),
        chunk_bytes(chunks@).len() <= SHA256_MAX_INPUT_LEN,
    ensures
        final(idx).wf(),
        ok == (old(idx)@.count < i64::MAX && (old(idx)@.entries.contains_key(
            hex_upper_of(sha256_of(chunk_bytes(chunks@))),
        ) ==> old(idx)@.dupe_size + size <= u64::MAX)),
        ok ==> final(idx)@ == observe_step(
            old(idx)@,
            (Observation {
                fingerprint: hex_upper_of(sha256_of(chunk_bytes(chunks@))),
                path: path@,
                size: size,
            }),
        ),
        !ok ==> *final(idx) == *old(idx),
{
    let fingerprint = fingerprint_of_chunks(chunks);
    if idx.can_observe(&fingerprint, size) {
        idx.observe(fingerprint, path, size);
        true
    } else {
        false
    }
}

}
