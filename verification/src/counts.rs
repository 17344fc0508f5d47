//! Line counts of single files and of directories.

use crate::mtime::MTime;
use crate::rel_path::RelPath;
use crate::worktree::{Entry, EntryKind};
use vstd::prelude::*;

verus! {

/// What counting a file has found.
#[derive(Clone, Copy, Debug, PartialEq, Eq, Structural)]
pub enum FileLineCount {
    /// The number of lines of a text file.
    Text(u64),
    Binary,
}

/// What tells one state of a file from another.
#[derive(Clone, Copy, Debug, PartialEq, Eq, Structural)]
pub struct ProjectLineCountFingerprint {
    pub mtime: MTime,
    pub size: u64,
    pub inode: u64,
}

/// The count of the file at a path, if there is one, and the state of the file
/// that it belongs to.
#[derive(Debug)]
pub struct ProjectLineCount {
    pub path: RelPath,
    pub count: Option<FileLineCount>,
    pub fingerprint: Option<ProjectLineCountFingerprint>,
}

impl Clone for ProjectLineCount {
    fn clone(&self) -> (copy: ProjectLineCount)
        ensures
            copy == *self,
    {
        ProjectLineCount {
            path: self.path.clone(),
            count: self.count,
            fingerprint: self.fingerprint,
        }
    }
}

/// What a worktree entry shows of the state of its file.
#[derive(Clone, Copy, Debug, PartialEq, Eq, Structural)]
pub struct EntryFingerprint {
    pub mtime: Option<MTime>,
    pub size: u64,
    pub inode: u64,
}

/// Whether a file in the state `fingerprint` is the one an entry shows. An
/// entry without a time of modification agrees with any.
pub open spec fn fingerprints_match(
    entry: EntryFingerprint,
    fingerprint: ProjectLineCountFingerprint,
) -> bool {
    &&& entry.size == fingerprint.size
    &&& entry.inode == fingerprint.inode
    &&& entry.mtime matches Some(mtime) ==> mtime == fingerprint.mtime
}

/// The fingerprint that an entry shows.
pub open spec fn fingerprint_of(entry: Entry) -> EntryFingerprint {
    EntryFingerprint { mtime: entry.mtime, size: entry.size, inode: entry.inode }
}

impl EntryFingerprint {
    pub fn for_entry(entry: &Entry) -> (fingerprint: EntryFingerprint)
        ensures
            fingerprint == fingerprint_of(*entry),
    {
        EntryFingerprint { mtime: entry.mtime, size: entry.size, inode: entry.inode }
    }

    pub fn matches(self, fingerprint: ProjectLineCountFingerprint) -> (matching: bool)
        ensures
            matching == fingerprints_match(self, fingerprint),
    {
        self.size == fingerprint.size && self.inode == fingerprint.inode && match self.mtime {
            Some(mtime) => mtime == fingerprint.mtime,
            None => true,
        }
    }
}

/// Asks for the lines of the file at `path` to be counted, in the state that
/// its entry shows.
#[derive(Debug)]
pub struct LineCountRequest {
    pub path: RelPath,
    pub fingerprint: EntryFingerprint,
}

impl Clone for LineCountRequest {
    fn clone(&self) -> (copy: LineCountRequest)
        ensures
            copy == *self,
    {
        LineCountRequest { path: self.path.clone(), fingerprint: self.fingerprint }
    }
}

/// How far the count of an entry has come.
#[derive(Clone, Copy, Debug, PartialEq, Eq, Structural)]
pub enum LineCountState {
    Pending,
    Unscanned,
    Text(u64),
    Binary,
    Unavailable,
}

/// The lines counted so far, and how many entries are still without a count.
#[derive(Clone, Copy, Debug)]
pub struct LineCountAggregate {
    pub lines: u64,
    pub incomplete_entries: u32,
}

/// The lines of a file or directory; only part of them where some entry is
/// still without a count.
#[derive(Clone, Copy, Debug, PartialEq, Eq, Structural)]
pub struct LineCountTotal {
    pub lines: u64,
    pub is_partial: bool,
}

/// `lines` and `incomplete` as far as the fields can hold them.
pub open spec fn capped(lines: nat, incomplete: nat) -> LineCountAggregate {
    LineCountAggregate {
        lines: if lines <= u64::MAX {
            lines as u64
        } else {
            u64::MAX
        },
        incomplete_entries: if incomplete <= u32::MAX {
            incomplete as u32
        } else {
            u32::MAX
        },
    }
}

/// The total that an aggregate amounts to: none as long as there is nothing but
/// entries without a count.
pub open spec fn resolved(aggregate: LineCountAggregate) -> Option<LineCountTotal> {
    if aggregate.incomplete_entries != 0 && aggregate.lines == 0 {
        None
    } else {
        Some(
            LineCountTotal {
                lines: aggregate.lines,
                is_partial: aggregate.incomplete_entries != 0,
            },
        )
    }
}

impl LineCountAggregate {
    pub fn zero() -> (aggregate: LineCountAggregate)
        ensures
            aggregate == capped(0, 0),
    {
        LineCountAggregate { lines: 0, incomplete_entries: 0 }
    }

    /// Adds up; a field that cannot hold its sum stays at its maximum.
    pub fn add(&mut self, other: &LineCountAggregate)
        ensures
            *final(self) == capped(
                (old(self).lines + other.lines) as nat,
                (old(self).incomplete_entries + other.incomplete_entries) as nat,
            ),
    {
        self.lines = self.lines.saturating_add(other.lines);
        self.incomplete_entries = self.incomplete_entries.saturating_add(other.incomplete_entries);
    }

    pub fn resolved_line_count(self) -> (total: Option<LineCountTotal>)
        ensures
            total == resolved(self),
    {
        let is_partial = self.incomplete_entries != 0;
        if is_partial && self.lines == 0 {
            return None;
        }
        Some(LineCountTotal { lines: self.lines, is_partial })
    }
}

/// The aggregates of the entries that remain when ignored and hidden ones are
/// left out or not.
#[derive(Clone, Copy, Debug)]
pub struct LineCountSummary {
    pub all: LineCountAggregate,
    pub non_ignored: LineCountAggregate,
    pub non_hidden: LineCountAggregate,
    pub visible: LineCountAggregate,
}

impl LineCountSummary {
    /// The aggregate with ignored or hidden entries left out.
    pub open spec fn part(self, hide_ignored: bool, hide_hidden: bool) -> LineCountAggregate {
        match (hide_ignored, hide_hidden) {
            (false, false) => self.all,
            (true, false) => self.non_ignored,
            (false, true) => self.non_hidden,
            (true, true) => self.visible,
        }
    }

    pub fn zero() -> (summary: LineCountSummary)
        ensures
            forall|hide_ignored: bool, hide_hidden: bool| #[trigger]
                summary.part(hide_ignored, hide_hidden) == capped(0, 0),
    {
        LineCountSummary {
            all: LineCountAggregate::zero(),
            non_ignored: LineCountAggregate::zero(),
            non_hidden: LineCountAggregate::zero(),
            visible: LineCountAggregate::zero(),
        }
    }

    pub fn add_summary(&mut self, summary: &LineCountSummary)
        ensures
            forall|hide_ignored: bool, hide_hidden: bool|
                (#[trigger] final(self).part(hide_ignored, hide_hidden)) == capped(
                    (old(self).part(hide_ignored, hide_hidden).lines + summary.part(
                        hide_ignored,
                        hide_hidden,
                    ).lines) as nat,
                    (old(self).part(hide_ignored, hide_hidden).incomplete_entries + summary.part(
                        hide_ignored,
                        hide_hidden,
                    ).incomplete_entries) as nat,
                ),
    {
        self.all.add(&summary.all);
        self.non_ignored.add(&summary.non_ignored);
        self.non_hidden.add(&summary.non_hidden);
        self.visible.add(&summary.visible);
    }
}

/// A directory whose contents are not known yet.
pub fn is_unscanned_directory(entry: &Entry) -> (unscanned: bool)
    ensures
        unscanned == (entry.kind is PendingDir || entry.kind is UnloadedDir),
{
    matches!(entry.kind, EntryKind::PendingDir | EntryKind::UnloadedDir)
}

/// What becomes of a pending entry. A result that is missing, or that belongs
/// to another state of the file than the one asked for, leaves it without a
/// count rather than pending: one unreadable file must not hold up the totals
/// of the directories above it. Where the file has changed in the meantime, the
/// change marks the entry as pending anew.
pub open spec fn state_after(
    fingerprint: EntryFingerprint,
    result: Option<ProjectLineCount>,
) -> LineCountState {
    match result {
        Some(result) => match (result.fingerprint, result.count) {
            (Some(found), Some(count)) if fingerprints_match(fingerprint, found) => match count {
                FileLineCount::Text(lines) => LineCountState::Text(lines),
                FileLineCount::Binary => LineCountState::Binary,
            },
            _ => LineCountState::Unavailable,
        },
        None => LineCountState::Unavailable,
    }
}

pub fn resolved_state(
    request: &LineCountRequest,
    result: Option<&ProjectLineCount>,
) -> (state: LineCountState)
    ensures
        state == state_after(
            request.fingerprint,
            match result {
                Some(result) => Some(*result),
                None => None,
            },
        ),
{
    match result {
        Some(result) => match result.fingerprint {
            Some(fingerprint) if request.fingerprint.matches(fingerprint) => match result.count {
                Some(FileLineCount::Text(lines)) => LineCountState::Text(lines),
                Some(FileLineCount::Binary) => LineCountState::Binary,
                None => LineCountState::Unavailable,
            },
            _ => LineCountState::Unavailable,
        },
        None => LineCountState::Unavailable,
    }
}

/// What the cache holds for a path: how far the count has come, for which state
/// of the file, and whether the entry is ignored or hidden.
#[derive(Clone, Copy, Debug, PartialEq, Eq, Structural)]
pub struct LineCountEntry {
    pub fingerprint: Option<EntryFingerprint>,
    pub state: LineCountState,
    pub is_ignored: bool,
    pub is_hidden: bool,
}

/// The lines that an entry contributes.
pub open spec fn lines_of(entry: LineCountEntry) -> nat {
    match entry.state {
        LineCountState::Text(lines) => lines as nat,
        _ => 0,
    }
}

/// One for an entry that is still without a count.
pub open spec fn incompleteness_of(entry: LineCountEntry) -> nat {
    match entry.state {
        LineCountState::Text(_) | LineCountState::Binary => 0,
        _ => 1,
    }
}

/// Whether an entry remains when ignored or hidden ones are left out.
pub open spec fn is_shown(entry: LineCountEntry, hide_ignored: bool, hide_hidden: bool) -> bool {
    !(hide_ignored && entry.is_ignored) && !(hide_hidden && entry.is_hidden)
}

/// A file whose count has yet to be made.
pub open spec fn pending_file_entry(entry: Entry) -> LineCountEntry {
    LineCountEntry {
        fingerprint: Some(fingerprint_of(entry)),
        state: LineCountState::Pending,
        is_ignored: entry.is_ignored,
        is_hidden: entry.is_hidden,
    }
}

/// A directory whose contents are not known yet.
pub open spec fn pending_directory_entry(entry: Entry) -> LineCountEntry {
    LineCountEntry {
        fingerprint: None,
        state: if entry.kind is UnloadedDir {
            LineCountState::Unscanned
        } else {
            LineCountState::Pending
        },
        is_ignored: entry.is_ignored,
        is_hidden: entry.is_hidden,
    }
}

impl LineCountEntry {
    pub fn pending_file(entry: &Entry) -> (pending: LineCountEntry)
        ensures
            pending == pending_file_entry(*entry),
    {
        LineCountEntry {
            fingerprint: Some(EntryFingerprint::for_entry(entry)),
            state: LineCountState::Pending,
            is_ignored: entry.is_ignored,
            is_hidden: entry.is_hidden,
        }
    }

    pub fn pending_directory(entry: &Entry) -> (pending: LineCountEntry)
        ensures
            pending == pending_directory_entry(*entry),
    {
        LineCountEntry {
            fingerprint: None,
            state: if entry.kind == EntryKind::UnloadedDir {
                LineCountState::Unscanned
            } else {
                LineCountState::Pending
            },
            is_ignored: entry.is_ignored,
            is_hidden: entry.is_hidden,
        }
    }

    pub fn aggregate(&self) -> (aggregate: LineCountAggregate)
        ensures
            aggregate == capped(lines_of(*self), incompleteness_of(*self)),
    {
        match self.state {
            LineCountState::Pending | LineCountState::Unscanned | LineCountState::Unavailable => {
                LineCountAggregate { lines: 0, incomplete_entries: 1 }
            },
            LineCountState::Text(lines) => LineCountAggregate { lines, incomplete_entries: 0 },
            LineCountState::Binary => LineCountAggregate { lines: 0, incomplete_entries: 0 },
        }
    }

    pub fn summary(&self) -> (summary: LineCountSummary)
        ensures
            forall|hide_ignored: bool, hide_hidden: bool| #[trigger]
                summary.part(hide_ignored, hide_hidden) == (if is_shown(
                    *self,
                    hide_ignored,
                    hide_hidden,
                ) {
                    capped(lines_of(*self), incompleteness_of(*self))
                } else {
                    capped(0, 0)
                }),
    {
        let aggregate = self.aggregate();
        let none = LineCountAggregate::zero();
        LineCountSummary {
            all: aggregate,
            non_ignored: if self.is_ignored {
                none
            } else {
                aggregate
            },
            non_hidden: if self.is_hidden {
                none
            } else {
                aggregate
            },
            visible: if self.is_ignored || self.is_hidden {
                none
            } else {
                aggregate
            },
        }
    }
}

} // verus!
