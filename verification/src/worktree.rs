//! What is known of a worktree: its entries, and what has changed in it.

use crate::mtime::MTime;
use crate::order::{Key, Precedence};
use crate::ordered_map;
use crate::ordered_map::OrderedMap;
use crate::rel_path;
use crate::rel_path::RelPath;
use vstd::prelude::*;

verus! {

/// Identifies a worktree.
#[derive(Clone, Copy, Debug, PartialEq, Eq, PartialOrd, Ord, Hash, Structural)]
pub struct WorktreeId(usize);

impl View for WorktreeId {
    type V = usize;

    closed spec fn view(&self) -> usize {
        self.0
    }
}

impl WorktreeId {
    pub fn from_usize(id: usize) -> (worktree_id: WorktreeId)
        ensures
            worktree_id@ == id,
    {
        WorktreeId(id)
    }

    pub fn to_usize(&self) -> (id: usize)
        ensures
            id == self@,
    {
        self.0
    }

    /// Whether both identify the same worktree.
    pub fn same_as(&self, other: &WorktreeId) -> (same: bool)
        ensures
            same == (self@ == other@),
    {
        self.0 == other.0
    }
}

impl Key for WorktreeId {
    type Model = usize;

    open spec fn model(&self) -> usize {
        self@
    }

    open spec fn before(a: usize, b: usize) -> bool {
        a < b
    }

    proof fn lemma_irreflexive(a: usize) {
    }

    proof fn lemma_transitive(a: usize, b: usize, c: usize) {
    }

    proof fn lemma_total(a: usize, b: usize) {
    }

    fn compare(&self, other: &WorktreeId) -> (standing: Precedence) {
        self.0.compare(&other.0)
    }

    fn duplicate(&self) -> (copy: WorktreeId) {
        *self
    }
}

/// What an entry of a worktree is.
#[derive(Clone, Copy, Debug, PartialEq, Eq, Structural)]
pub enum EntryKind {
    /// A directory whose contents are not loaded.
    UnloadedDir,
    /// A directory that is being scanned.
    PendingDir,
    Dir,
    File,
}

/// A file or directory of a worktree.
#[derive(Debug)]
pub struct Entry {
    pub kind: EntryKind,
    pub path: RelPath,
    pub inode: u64,
    pub mtime: Option<MTime>,
    pub size: u64,
    pub is_ignored: bool,
    pub is_hidden: bool,
    pub is_fifo: bool,
}

impl Clone for Entry {
    fn clone(&self) -> (copy: Entry)
        ensures
            copy == *self,
    {
        Entry {
            kind: self.kind,
            path: self.path.clone(),
            inode: self.inode,
            mtime: self.mtime,
            size: self.size,
            is_ignored: self.is_ignored,
            is_hidden: self.is_hidden,
            is_fifo: self.is_fifo,
        }
    }
}

impl Entry {
    pub fn is_file(&self) -> (file: bool)
        ensures
            file == (self.kind is File),
    {
        match self.kind {
            EntryKind::File => true,
            _ => false,
        }
    }
}

/// How paths of the worktree's host are written.
#[derive(Clone, Copy, Debug, PartialEq, Eq, Structural)]
pub enum PathStyle {
    Unix,
    Windows,
}

/// The paths of the entries that one round of changes has touched.
pub type UpdatedEntriesSet = Vec<RelPath>;

/// Entries stand at their paths.
pub open spec fn at_their_paths(entries: Map<Seq<char>, Entry>) -> bool {
    forall|path: Seq<char>| #[trigger] entries.contains_key(path) ==> entries[path].path@ == path
}

/// The entries of a worktree at some moment.
pub struct Snapshot {
    id: WorktreeId,
    root_name: RelPath,
    abs_path: String,
    path_style: PathStyle,
    entries: OrderedMap<RelPath, Entry>,
}

/// What separates the components of a path on the worktree's host.
pub open spec fn separator_of(style: PathStyle) -> char {
    match style {
        PathStyle::Unix => '/',
        PathStyle::Windows => '\\',
    }
}

/// `base` followed by `parts`, with one `separator` before each part.
pub open spec fn joined(base: Seq<char>, separator: char, parts: Seq<Seq<char>>) -> Seq<char>
    decreases parts.len(),
{
    if parts.len() == 0 {
        base
    } else {
        let front = joined(base, separator, parts.drop_last());
        if front.len() > 0 && front.last() == separator {
            front + parts.last()
        } else {
            front.push(separator) + parts.last()
        }
    }
}

fn ends_with(text: &str, c: char) -> (ends: bool)
    ensures
        ends == (text@.len() > 0 && text@.last() == c),
{
    let len: usize = text.unicode_len();
    len > 0 && text.get_char(len - 1) == c
}

impl Snapshot {
    /// The entries by path.
    pub closed spec fn entries_by_path(&self) -> Map<Seq<char>, Entry> {
        self.entries@
    }

    /// The entries in the order of their paths.
    pub closed spec fn listing(&self) -> Seq<(Seq<char>, Entry)> {
        self.entries.listing()
    }

    /// The absolute path of the worktree's root.
    pub closed spec fn root(&self) -> Seq<char> {
        self.abs_path@
    }

    pub closed spec fn style(&self) -> PathStyle {
        self.path_style
    }

    #[verifier::type_invariant]
    pub open spec fn entries_at_their_paths(&self) -> bool {
        at_their_paths(self.entries_by_path())
    }

    /// A worktree without entries.
    pub fn new(
        id: WorktreeId,
        root_name: RelPath,
        abs_path: String,
        path_style: PathStyle,
    ) -> (snapshot: Snapshot)
        ensures
            snapshot.entries_by_path() == Map::<Seq<char>, Entry>::empty(),
            snapshot.root() == abs_path@,
            snapshot.style() == path_style,
    {
        Snapshot { id, root_name, abs_path, path_style, entries: OrderedMap::new() }
    }

    /// Adds `entry`, in place of what was at its path.
    pub fn insert_entry(&mut self, entry: Entry)
        ensures
            final(self).entries_by_path() == old(self).entries_by_path().insert(
                entry.path@,
                entry,
            ),
            final(self).root() == old(self).root(),
            final(self).style() == old(self).style(),
    {
        proof {
            use_type_invariant(&*self);
        }
        let mut entries: OrderedMap<RelPath, Entry> = OrderedMap::new();
        std::mem::swap(&mut entries, &mut self.entries);
        entries.insert(entry.path.clone(), entry);
        self.entries = entries;
    }

    /// The entry at `path`.
    pub fn entry_for_path(&self, path: &RelPath) -> (found: Option<&Entry>)
        ensures
            match found {
                Some(entry) => {
                    &&& self.entries_by_path().contains_key(path@)
                    &&& *entry == self.entries_by_path()[path@]
                    &&& entry.path@ == path@
                },
                None => !self.entries_by_path().contains_key(path@),
            },
    {
        proof {
            use_type_invariant(self);
        }
        self.entries.get(path)
    }

    /// All entries, in the order of their paths.
    pub fn entries(&self) -> (entries: Vec<&Entry>)
        ensures
            self.entries_by_path() == ordered_map::map_of(self.listing()),
            ordered_map::strictly_ordered::<RelPath, Entry>(self.listing()),
            entries@.len() == self.listing().len(),
            forall|i: int|
                0 <= i < entries@.len() ==> *(#[trigger] entries@[i]) == self.listing()[i].1
                    && entries@[i].path@ == self.listing()[i].0,
    {
        let mut entries: Vec<&Entry> = Vec::new();
        let len: usize = self.entries.len();
        proof {
            use_type_invariant(self);
            ordered_map::lemma_map_of::<RelPath, Entry>(self.entries.listing());
        }
        for i in 0..len
            invariant
                len == self.entries.listing().len(),
                entries@.len() == i,
                forall|j: int|
                    0 <= j < i ==> *(#[trigger] entries@[j]) == self.entries.listing()[j].1,
        {
            entries.push(self.entries.value_at(i));
        }
        entries
    }

    /// The absolute path of the entry at `path`.
    pub fn absolutize(&self, path: &RelPath) -> (absolute: String)
        ensures
            absolute@ == joined(
                self.root(),
                separator_of(self.style()),
                rel_path::components(path@),
            ),
    {
        proof {
            reveal_strlit("/");
            reveal_strlit("\\");
        }
        let ghost parts_of_path = rel_path::components(path@);
        let (separator, separator_text) = match self.path_style {
            PathStyle::Unix => ('/', "/"),
            PathStyle::Windows => ('\\', "\\"),
        };
        let mut absolute = self.abs_path.clone();
        let parts = path.components();
        assert(parts_of_path.take(0) =~= Seq::<Seq<char>>::empty());
        for i in 0..parts.len()
            invariant
                parts@.len() == parts_of_path.len(),
                forall|j: int| 0 <= j < parts@.len() ==> (#[trigger] parts@[j])@ == parts_of_path[j],
                separator == separator_of(self.style()),
                separator_text@ =~= seq![separator],
                absolute@ == joined(self.root(), separator, parts_of_path.take(i as int)),
        {
            assert(parts_of_path.take(i + 1).drop_last() =~= parts_of_path.take(i as int));
            let ghost front = absolute@;
            if !ends_with(absolute.as_str(), separator) {
                absolute.append(separator_text);
                assert(absolute@ =~= front.push(separator));
            }
            absolute.append(parts[i]);
        }
        assert(parts_of_path.take(parts_of_path.len() as int) =~= parts_of_path);
        absolute
    }
}

} // verus!
