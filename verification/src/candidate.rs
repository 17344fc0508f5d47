//! Files whose lines can be counted.

use crate::counts::ProjectLineCountFingerprint;
use crate::mtime::MTime;
use crate::rel_path;
use crate::rel_path::RelPath;
use crate::worktree;
use crate::worktree::{Entry, Snapshot};
use vstd::prelude::*;

verus! {

/// What the file system shows of a file.
#[derive(Clone, Copy, Debug)]
pub struct Metadata {
    pub inode: u64,
    pub mtime: MTime,
    pub len: u64,
    pub is_dir: bool,
    pub is_fifo: bool,
}

/// A state of a file that can be told from others and persisted.
#[derive(Clone, Copy, Debug, PartialEq, Eq, Structural)]
pub struct FileFingerprint {
    pub mtime: MTime,
    pub size: u64,
    pub inode: u64,
}

/// The fingerprint that metadata shows: that of a regular file whose time of
/// modification can be persisted.
pub open spec fn fingerprint_in(metadata: Metadata) -> Option<FileFingerprint> {
    if metadata.is_dir || metadata.is_fifo || metadata.mtime.seconds() < 0 {
        None
    } else {
        Some(
            FileFingerprint {
                mtime: metadata.mtime,
                size: metadata.len,
                inode: metadata.inode,
            },
        )
    }
}

/// The same fingerprint, as results carry it.
pub open spec fn project_fingerprint(
    fingerprint: FileFingerprint,
) -> ProjectLineCountFingerprint {
    ProjectLineCountFingerprint {
        mtime: fingerprint.mtime,
        size: fingerprint.size,
        inode: fingerprint.inode,
    }
}

impl FileFingerprint {
    pub fn from_metadata(metadata: Metadata) -> (fingerprint: Option<FileFingerprint>)
        ensures
            fingerprint == fingerprint_in(metadata),
    {
        if metadata.is_dir || metadata.is_fifo {
            return None;
        }
        if metadata.mtime.to_seconds_and_nanos_for_persistence().is_none() {
            return None;
        }
        Some(
            FileFingerprint {
                mtime: metadata.mtime,
                size: metadata.len,
                inode: metadata.inode,
            },
        )
    }

    pub fn as_project_fingerprint(self) -> (fingerprint: ProjectLineCountFingerprint)
        ensures
            fingerprint == project_fingerprint(self),
    {
        ProjectLineCountFingerprint { mtime: self.mtime, size: self.size, inode: self.inode }
    }
}

/// A file whose lines are to be counted, and the state in which it was seen.
#[derive(Debug)]
pub struct LineCountCandidate {
    pub path: RelPath,
    pub abs_path: String,
    pub fingerprint: Option<FileFingerprint>,
}

impl Clone for LineCountCandidate {
    fn clone(&self) -> (copy: LineCountCandidate)
        ensures
            copy == *self,
    {
        LineCountCandidate {
            path: self.path.clone(),
            abs_path: self.abs_path.clone(),
            fingerprint: self.fingerprint,
        }
    }
}

/// The state of a file that its entry shows, where it can be persisted.
pub open spec fn fingerprint_shown(entry: Entry) -> Option<FileFingerprint> {
    match entry.mtime {
        Some(mtime) => if mtime.seconds() >= 0 {
            Some(FileFingerprint { mtime, size: entry.size, inode: entry.inode })
        } else {
            None
        },
        None => None,
    }
}

impl LineCountCandidate {
    /// The candidate at `path`, if the snapshot has a regular file there.
    pub fn from_snapshot(snapshot: &Snapshot, path: RelPath) -> (candidate: Option<
        LineCountCandidate,
    >)
        ensures
            candidate is Some <==> {
                &&& snapshot.entries_by_path().contains_key(path@)
                &&& snapshot.entries_by_path()[path@].kind is File
                &&& !snapshot.entries_by_path()[path@].is_fifo
            },
            candidate matches Some(candidate) ==> {
                &&& candidate.path == path
                &&& candidate.abs_path@ == worktree::joined(
                    snapshot.root(),
                    worktree::separator_of(snapshot.style()),
                    rel_path::components(path@),
                )
                &&& candidate.fingerprint == fingerprint_shown(snapshot.entries_by_path()[path@])
            },
    {
        let entry = match snapshot.entry_for_path(&path) {
            Some(entry) => entry,
            None => {
                return None;
            },
        };
        if !entry.is_file() || entry.is_fifo {
            return None;
        }
        let fingerprint = match entry.mtime {
            Some(mtime) => if mtime.to_seconds_and_nanos_for_persistence().is_some() {
                Some(FileFingerprint { mtime, size: entry.size, inode: entry.inode })
            } else {
                None
            },
            None => None,
        };
        Some(
            LineCountCandidate { abs_path: snapshot.absolutize(&path), path, fingerprint },
        )
    }
}

} // verus!
