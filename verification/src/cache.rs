//! The line counts of the entries of every worktree.

use crate::counts;
use crate::counts::{
    is_unscanned_directory, resolved_state, EntryFingerprint, LineCountAggregate, LineCountEntry,
    LineCountRequest, LineCountState, LineCountSummary, LineCountTotal, ProjectLineCount,
};
use crate::distinct;
use crate::filter::LineCountFilter;
use crate::order::Key;
use crate::ordered_map;
use crate::ordered_map::OrderedMap;
use crate::rel_path;
use crate::rel_path::RelPath;
use crate::sum;
use crate::worktree::{Entry, WorktreeId};
use vstd::prelude::*;

verus! {

/// What is known of the entries of one worktree, by path.
pub type Counts = Map<Seq<char>, LineCountEntry>;

/// The paths and fingerprints of requests.
pub open spec fn asked(requests: Seq<LineCountRequest>) -> Seq<(Seq<char>, EntryFingerprint)> {
    Seq::new(requests.len(), |i: int| (requests[i].path@, requests[i].fingerprint))
}

/// A file that the filter lets through.
pub open spec fn is_counted(filter: LineCountFilter, entry: Entry) -> bool {
    entry.kind is File && !entry.is_fifo && filter.admits(entry.path@)
}

/// A directory whose contents are not known yet.
pub open spec fn is_unscanned(entry: Entry) -> bool {
    entry.kind is PendingDir || entry.kind is UnloadedDir
}

/// What is known is about the state of the file that `entry` shows.
pub open spec fn is_current(known: Counts, entry: Entry) -> bool {
    known.contains_key(entry.path@) && known[entry.path@].fingerprint == Some(
        counts::fingerprint_of(entry),
    )
}

/// What a reset keeps for an entry. A file that has not changed since it was
/// last known keeps its state.
pub open spec fn entry_on_reset(
    filter: LineCountFilter,
    known: Counts,
    entry: Entry,
) -> Option<LineCountEntry> {
    if is_counted(filter, entry) {
        if is_current(known, entry) {
            Some(
                LineCountEntry {
                    state: known[entry.path@].state,
                    ..counts::pending_file_entry(entry)
                },
            )
        } else {
            Some(counts::pending_file_entry(entry))
        }
    } else if is_unscanned(entry) {
        Some(counts::pending_directory_entry(entry))
    } else {
        None
    }
}

/// What is known after a reset to `entries`, each at a path of its own.
pub open spec fn counts_on_reset(
    filter: LineCountFilter,
    known: Counts,
    entries: Seq<&Entry>,
) -> Counts
    decreases entries.len(),
{
    if entries.len() == 0 {
        Map::empty()
    } else {
        let front = counts_on_reset(filter, known, entries.drop_last());
        match entry_on_reset(filter, known, *entries.last()) {
            Some(kept) => front.insert(entries.last().path@, kept),
            None => front,
        }
    }
}

/// The counts that a reset to `entries` asks for: those of the files that are
/// new or have changed.
pub open spec fn requests_on_reset(
    filter: LineCountFilter,
    known: Counts,
    entries: Seq<&Entry>,
) -> Seq<(Seq<char>, EntryFingerprint)>
    decreases entries.len(),
{
    if entries.len() == 0 {
        Seq::empty()
    } else {
        let front = requests_on_reset(filter, known, entries.drop_last());
        let entry = *entries.last();
        if is_counted(filter, entry) && !is_current(known, entry) {
            front.push((entry.path@, counts::fingerprint_of(entry)))
        } else {
            front
        }
    }
}

/// A count that need not be made again: it has been made, or is still to come,
/// for the state of the file that `entry` shows.
pub open spec fn is_reusable(known: Counts, entry: Entry) -> bool {
    is_current(known, entry) && match known[entry.path@].state {
        LineCountState::Pending | LineCountState::Text(_) | LineCountState::Binary => true,
        _ => false,
    }
}

/// What is known of a changed entry; nothing where it is not counted.
pub open spec fn entry_on_change(
    filter: LineCountFilter,
    known: Counts,
    entry: Entry,
) -> Option<LineCountEntry> {
    if is_unscanned(entry) {
        Some(counts::pending_directory_entry(entry))
    } else if !is_counted(filter, entry) {
        None
    } else if is_reusable(known, entry) {
        Some(
            LineCountEntry {
                state: known[entry.path@].state,
                ..counts::pending_file_entry(entry)
            },
        )
    } else {
        Some(counts::pending_file_entry(entry))
    }
}

/// Sets or takes out what is known of the paths in `edits`, one after another.
pub open spec fn edited(
    known: Counts,
    edits: Seq<(Seq<char>, Option<LineCountEntry>)>,
) -> Counts
    decreases edits.len(),
{
    if edits.len() == 0 {
        known
    } else {
        let front = edited(known, edits.drop_last());
        match edits.last().1 {
            Some(entry) => front.insert(edits.last().0, entry),
            None => front.remove(edits.last().0),
        }
    }
}

/// What changed entries set or take out.
pub open spec fn edits_on_change(
    filter: LineCountFilter,
    known: Counts,
    entries: Seq<&Entry>,
) -> Seq<(Seq<char>, Option<LineCountEntry>)> {
    Seq::new(
        entries.len(),
        |i: int| (entries[i].path@, entry_on_change(filter, known, *entries[i])),
    )
}

/// What is known once changed entries, each at a path of its own, have been
/// taken note of.
pub open spec fn counts_on_change(
    filter: LineCountFilter,
    known: Counts,
    entries: Seq<&Entry>,
) -> Counts {
    edited(known, edits_on_change(filter, known, entries))
}

/// The counts that changed entries ask for.
pub open spec fn requests_on_change(
    filter: LineCountFilter,
    known: Counts,
    entries: Seq<&Entry>,
) -> Seq<(Seq<char>, EntryFingerprint)>
    decreases entries.len(),
{
    if entries.len() == 0 {
        Seq::empty()
    } else {
        let front = requests_on_change(filter, known, entries.drop_last());
        let entry = *entries.last();
        if is_counted(filter, entry) && !is_reusable(known, entry) {
            front.push((entry.path@, counts::fingerprint_of(entry)))
        } else {
            front
        }
    }
}

/// The entry at `path` still waits for the count of the state `fingerprint`.
pub open spec fn is_awaited(
    known: Counts,
    path: Seq<char>,
    fingerprint: EntryFingerprint,
) -> bool {
    &&& known.contains_key(path)
    &&& known[path].fingerprint == Some(fingerprint)
    &&& known[path].state is Pending
}

/// What the result of a request sets.
pub open spec fn entry_on_result(
    known: Counts,
    request: LineCountRequest,
    result: Option<ProjectLineCount>,
) -> LineCountEntry {
    LineCountEntry {
        state: counts::state_after(request.fingerprint, result),
        ..known[request.path@]
    }
}

/// A result, taken by value.
pub open spec fn result_of(result: Option<&ProjectLineCount>) -> Option<ProjectLineCount> {
    match result {
        Some(result) => Some(*result),
        None => None,
    }
}

/// What results set: only entries that still wait for them.
pub open spec fn edits_on_results(
    known: Counts,
    results: Seq<(&LineCountRequest, Option<&ProjectLineCount>)>,
) -> Seq<(Seq<char>, Option<LineCountEntry>)>
    decreases results.len(),
{
    if results.len() == 0 {
        Seq::empty()
    } else {
        let front = edits_on_results(known, results.drop_last());
        let request = *results.last().0;
        if is_awaited(known, request.path@, request.fingerprint) {
            front.push(
                (
                    request.path@,
                    Some(entry_on_result(known, request, result_of(results.last().1))),
                ),
            )
        } else {
            front
        }
    }
}

/// What an entry adds to the lines of `directory`.
pub open spec fn lines_under(
    directory: Seq<char>,
    hide_ignored: bool,
    hide_hidden: bool,
) -> spec_fn(Seq<char>, LineCountEntry) -> nat {
    |path: Seq<char>, entry: LineCountEntry|
        if rel_path::lies_under(path, directory) && counts::is_shown(
            entry,
            hide_ignored,
            hide_hidden,
        ) {
            counts::lines_of(entry)
        } else {
            0
        }
}

/// What an entry adds to the number of entries of `directory` that are still
/// without a count.
pub open spec fn incomplete_under(
    directory: Seq<char>,
    hide_ignored: bool,
    hide_hidden: bool,
) -> spec_fn(Seq<char>, LineCountEntry) -> nat {
    |path: Seq<char>, entry: LineCountEntry|
        if rel_path::lies_under(path, directory) && counts::is_shown(
            entry,
            hide_ignored,
            hide_hidden,
        ) {
            counts::incompleteness_of(entry)
        } else {
            0
        }
}

/// The total of a directory: over all entries at and below it that are shown.
pub open spec fn directory_total(
    known: Counts,
    directory: Seq<char>,
    hide_ignored: bool,
    hide_hidden: bool,
) -> Option<LineCountTotal> {
    counts::resolved(
        counts::capped(
            sum::sum_over(known, lines_under(directory, hide_ignored, hide_hidden)),
            sum::sum_over(known, incomplete_under(directory, hide_ignored, hide_hidden)),
        ),
    )
}

/// The total of a file: its lines, once they are counted.
pub open spec fn file_total(known: Counts, path: Seq<char>) -> Option<LineCountTotal> {
    if known.contains_key(path) {
        match known[path].state {
            LineCountState::Text(lines) => Some(LineCountTotal { lines, is_partial: false }),
            _ => None,
        }
    } else {
        None
    }
}

/// What is known of a worktree's entries; nothing where the worktree is not
/// known.
pub open spec fn counts_in(worktrees: Map<usize, Counts>, id: usize) -> Counts {
    if worktrees.contains_key(id) {
        worktrees[id]
    } else {
        Map::empty()
    }
}

/// Sets or takes out what is known of one path.
enum Edit {
    Insert(RelPath, LineCountEntry),
    Remove(RelPath),
}

spec fn edit_model(edit: Edit) -> (Seq<char>, Option<LineCountEntry>) {
    match edit {
        Edit::Insert(path, entry) => (path@, Some(entry)),
        Edit::Remove(path) => (path@, None),
    }
}

spec fn edit_models(edits: Seq<Edit>) -> Seq<(Seq<char>, Option<LineCountEntry>)> {
    Seq::new(edits.len(), |i: int| edit_model(edits[i]))
}

type Tree = OrderedMap<RelPath, LineCountEntry>;

spec fn trees_view(trees: Map<usize, Tree>) -> Map<usize, Counts> {
    Map::new(|id: usize| trees.contains_key(id), |id: usize| trees[id]@)
}

proof fn lemma_trees_insert(trees: Map<usize, Tree>, id: usize, tree: Tree)
    ensures
        trees_view(trees.insert(id, tree)) == trees_view(trees).insert(id, tree@),
        trees_view(trees.remove(id)) == trees_view(trees).remove(id),
        trees.remove(id).insert(id, tree) == trees.insert(id, tree),
{
    assert(trees_view(trees.insert(id, tree)) =~= trees_view(trees).insert(id, tree@));
    assert(trees_view(trees.remove(id)) =~= trees_view(trees).remove(id));
    assert(trees.remove(id).insert(id, tree) =~= trees.insert(id, tree));
}

/// The line counts of the entries of every worktree.
pub struct LineCountCache {
    worktrees: OrderedMap<WorktreeId, Tree>,
    filter: LineCountFilter,
}

impl View for LineCountCache {
    type V = Map<usize, Counts>;

    closed spec fn view(&self) -> Map<usize, Counts> {
        trees_view(self.worktrees@)
    }
}

/// The state known of `entry`, where it is about what the entry shows.
fn current_state(previous: Option<&Tree>, entry: &Entry) -> (state: Option<LineCountState>)
    ensures
        ({
            let known = match previous {
                Some(tree) => tree@,
                None => Map::empty(),
            };
            if is_current(known, *entry) {
                state == Some(known[entry.path@].state)
            } else {
                state is None
            }
        }),
{
    match previous {
        Some(tree) => match tree.get(&entry.path) {
            Some(old) => match old.fingerprint {
                Some(fingerprint) => if fingerprint == EntryFingerprint::for_entry(entry) {
                    Some(old.state)
                } else {
                    None
                },
                None => None,
            },
            None => None,
        },
        None => None,
    }
}

impl LineCountCache {
    pub closed spec fn filter(&self) -> LineCountFilter {
        self.filter
    }

    /// A cache that knows no worktree yet.
    pub fn new(filter: LineCountFilter) -> (cache: LineCountCache)
        ensures
            cache@ == Map::<usize, Counts>::empty(),
            cache.filter() == filter,
    {
        let cache = LineCountCache { worktrees: OrderedMap::new(), filter };
        assert(cache@ =~= Map::<usize, Counts>::empty());
        cache
    }

    /// Whether the lines of `entry` are counted.
    pub fn counts_file(&self, entry: &Entry) -> (counted: bool)
        ensures
            counted == is_counted(self.filter(), *entry),
    {
        entry.is_file() && !entry.is_fifo && self.filter.includes(&entry.path)
    }

    /// Forgets a worktree.
    pub fn remove_worktree(&mut self, worktree_id: WorktreeId)
        ensures
            final(self)@ == old(self)@.remove(worktree_id@),
            final(self).filter() == old(self).filter(),
    {
        self.worktrees.remove(&worktree_id);
        assert(self@ =~= old(self)@.remove(worktree_id@));
    }

    /// Takes `entries` for all that there is in a worktree, and gives back the
    /// counts to be made: those of the files that are new or have changed. The
    /// entries are held by their paths, so each path is given once.
    pub fn reset_worktree(&mut self, worktree_id: WorktreeId, entries: &[&Entry]) -> (requests: Vec<
        LineCountRequest,
    >)
        requires
            distinct::distinct_paths(entries@),
        ensures
            final(self)@ == old(self)@.insert(
                worktree_id@,
                counts_on_reset(
                    old(self).filter(),
                    counts_in(old(self)@, worktree_id@),
                    entries@,
                ),
            ),
            final(self).filter() == old(self).filter(),
            asked(requests@) == requests_on_reset(
                old(self).filter(),
                counts_in(old(self)@, worktree_id@),
                entries@,
            ),
    {
        let ghost filter = self.filter();
        let ghost known = counts_in(self@, worktree_id@);
        let mut requests: Vec<LineCountRequest> = Vec::new();
        let mut tree: Tree = OrderedMap::new();
        let previous = self.worktrees.get(&worktree_id);
        assert(entries@.take(0) =~= Seq::<&Entry>::empty());
        assert(asked(requests@) =~= Seq::<(Seq<char>, EntryFingerprint)>::empty());
        for i in 0..entries.len()
            invariant
                filter == self.filter(),
                known == (match previous {
                    Some(tree) => tree@,
                    None => Map::<Seq<char>, LineCountEntry>::empty(),
                }),
                tree@ == counts_on_reset(filter, known, entries@.take(i as int)),
                asked(requests@) == requests_on_reset(filter, known, entries@.take(i as int)),
        {
            let entry = entries[i];
            proof {
                assert(entries@.take(i + 1).drop_last() =~= entries@.take(i as int));
            }
            if self.counts_file(entry) {
                let mut pending = LineCountEntry::pending_file(entry);
                match current_state(previous, entry) {
                    Some(state) => {
                        pending.state = state;
                    },
                    None => {
                        let ghost before = requests@;
                        requests.push(
                            LineCountRequest {
                                path: entry.path.clone(),
                                fingerprint: EntryFingerprint::for_entry(entry),
                            },
                        );
                        assert(asked(requests@) =~= asked(before).push(
                            (entry.path@, counts::fingerprint_of(*entry)),
                        ));
                    },
                }
                tree.insert(entry.path.clone(), pending);
            } else if is_unscanned_directory(entry) {
                tree.insert(entry.path.clone(), LineCountEntry::pending_directory(entry));
            }
        }
        assert(entries@.take(entries@.len() as int) =~= entries@);
        proof {
            lemma_trees_insert(self.worktrees@, worktree_id@, tree);
        }
        self.worktrees.insert(worktree_id, tree);
        requests
    }

    /// Makes `edits` one after another. The worktree is known from then on.
    fn apply_edits(&mut self, worktree_id: WorktreeId, edits: Vec<Edit>)
        ensures
            final(self).filter() == old(self).filter(),
            final(self)@ == (if edits@.len() == 0 {
                old(self)@
            } else {
                old(self)@.insert(
                    worktree_id@,
                    edited(counts_in(old(self)@, worktree_id@), edit_models(edits@)),
                )
            }),
    {
        if edits.len() == 0 {
            return;
        }
        let ghost known = counts_in(self@, worktree_id@);
        let ghost trees = self.worktrees@;
        let ghost models = edit_models(edits@);
        let mut tree: Tree = match self.worktrees.remove(&worktree_id) {
            Some(tree) => tree,
            None => OrderedMap::new(),
        };
        assert(models.take(0) =~= Seq::<(Seq<char>, Option<LineCountEntry>)>::empty());
        for edit in it: edits
            invariant
                it.seq().len() == models.len(),
                forall|i: int| 0 <= i < models.len() ==> edit_model(it.seq()[i]) == models[i],
                tree@ == edited(known, models.take(it.index() as int)),
        {
            proof {
                let i = it.index() as int;
                assert(models.take(i + 1).drop_last() =~= models.take(i));
                assert(edit_model(it.seq()[i]) == models[i]);
            }
            match edit {
                Edit::Insert(path, entry) => {
                    tree.insert(path, entry);
                },
                Edit::Remove(path) => {
                    tree.remove(&path);
                },
            }
        }
        assert(models.take(models.len() as int) =~= models);
        proof {
            lemma_trees_insert(trees, worktree_id@, tree);
        }
        self.worktrees.insert(worktree_id, tree);
    }

    /// Takes note of changed entries, and gives back the counts to be made. A
    /// count that has been made, or is still to come, for the state that an
    /// entry shows is not asked for again. Each path is given once.
    pub fn mark_pending_many(&mut self, worktree_id: WorktreeId, entries: &[&Entry]) -> (requests:
        Vec<LineCountRequest>)
        requires
            distinct::distinct_paths(entries@),
        ensures
            final(self).filter() == old(self).filter(),
            final(self)@ == (if entries@.len() == 0 {
                old(self)@
            } else {
                old(self)@.insert(
                    worktree_id@,
                    counts_on_change(
                        old(self).filter(),
                        counts_in(old(self)@, worktree_id@),
                        entries@,
                    ),
                )
            }),
            asked(requests@) == requests_on_change(
                old(self).filter(),
                counts_in(old(self)@, worktree_id@),
                entries@,
            ),
    {
        let ghost filter = self.filter();
        let ghost known = counts_in(self@, worktree_id@);
        let mut edits: Vec<Edit> = Vec::new();
        let mut requests: Vec<LineCountRequest> = Vec::new();
        let existing = self.worktrees.get(&worktree_id);
        assert(entries@.take(0) =~= Seq::<&Entry>::empty());
        assert(asked(requests@) =~= Seq::<(Seq<char>, EntryFingerprint)>::empty());
        for i in 0..entries.len()
            invariant
                filter == self.filter(),
                known == (match existing {
                    Some(tree) => tree@,
                    None => Map::<Seq<char>, LineCountEntry>::empty(),
                }),
                edit_models(edits@) == edits_on_change(filter, known, entries@.take(i as int)),
                asked(requests@) == requests_on_change(filter, known, entries@.take(i as int)),
        {
            let entry = entries[i];
            let ghost before = edits@;
            let ghost asked_before = requests@;
            proof {
                assert(entries@.take(i + 1).drop_last() =~= entries@.take(i as int));
            }
            if is_unscanned_directory(entry) {
                edits.push(
                    Edit::Insert(entry.path.clone(), LineCountEntry::pending_directory(entry)),
                );
            } else if !self.counts_file(entry) {
                edits.push(Edit::Remove(entry.path.clone()));
            } else {
                let mut pending = LineCountEntry::pending_file(entry);
                match current_state(existing, entry) {
                    Some(state) if matches!(
                        state,
                        LineCountState::Pending | LineCountState::Text(_) | LineCountState::Binary
                    ) => {
                        pending.state = state;
                    },
                    _ => {
                        requests.push(
                            LineCountRequest {
                                path: entry.path.clone(),
                                fingerprint: EntryFingerprint::for_entry(entry),
                            },
                        );
                        assert(asked(requests@) =~= asked(asked_before).push(
                            (entry.path@, counts::fingerprint_of(*entry)),
                        ));
                    },
                }
                edits.push(Edit::Insert(entry.path.clone(), pending));
            }
            proof {
                let made = (entry.path@, entry_on_change(filter, known, *entry));
                assert(edit_model(edits@.last()) == made);
                assert(edit_models(edits@) =~= edit_models(before).push(made));
                assert(edits_on_change(filter, known, entries@.take(i + 1)) =~= edits_on_change(
                    filter,
                    known,
                    entries@.take(i as int),
                ).push(made));
            }
        }
        assert(entries@.take(entries@.len() as int) =~= entries@);
        assert(edits@.len() == entries@.len()) by {
            assert(edit_models(edits@).len() == edits@.len());
        }
        self.apply_edits(worktree_id, edits);
        requests
    }

    /// Sets the entries that still wait for one of the results, and tells
    /// whether there was any. A result that has been overtaken by a change of
    /// the file, or by another result, sets nothing. Each path is given once.
    pub fn apply_many(
        &mut self,
        worktree_id: WorktreeId,
        results: &[(&LineCountRequest, Option<&ProjectLineCount>)],
    ) -> (changed: bool)
        requires
            distinct::distinct_requests(results@),
        ensures
            final(self).filter() == old(self).filter(),
            final(self)@ == (if changed {
                old(self)@.insert(
                    worktree_id@,
                    edited(
                        counts_in(old(self)@, worktree_id@),
                        edits_on_results(counts_in(old(self)@, worktree_id@), results@),
                    ),
                )
            } else {
                old(self)@
            }),
            changed <==> exists|i: int|
                0 <= i < results@.len() && is_awaited(
                    counts_in(old(self)@, worktree_id@),
                    (#[trigger] results@[i]).0.path@,
                    results@[i].0.fingerprint,
                ),
    {
        let ghost known = counts_in(self@, worktree_id@);
        let entries = match self.worktrees.get(&worktree_id) {
            Some(entries) => entries,
            None => {
                return false;
            },
        };
        let mut edits: Vec<Edit> = Vec::new();
        assert(results@.take(0) =~= Seq::<(&LineCountRequest, Option<&ProjectLineCount>)>::empty());
        assert(edit_models(edits@) =~= Seq::<(Seq<char>, Option<LineCountEntry>)>::empty());
        for i in 0..results.len()
            invariant
                known == entries@,
                edit_models(edits@) == edits_on_results(known, results@.take(i as int)),
                edits@.len() > 0 <==> exists|j: int|
                    0 <= j < i && is_awaited(
                        known,
                        (#[trigger] results@[j]).0.path@,
                        results@[j].0.fingerprint,
                    ),
        {
            let request = results[i].0;
            let result = results[i].1;
            let ghost before = edits@;
            proof {
                assert(results@.take(i + 1).drop_last() =~= results@.take(i as int));
                assert(*results@[i as int].0 == *request);
            }
            if let Some(current) = entries.get(&request.path) {
                if current.fingerprint == Some(request.fingerprint) && current.state
                    == LineCountState::Pending {
                    let state = resolved_state(request, result);
                    let made = LineCountEntry { state, ..*current };
                    edits.push(Edit::Insert(request.path.clone(), made));
                    assert(edit_models(edits@) =~= edit_models(before).push(
                        (request.path@, Some(made)),
                    ));
                }
            }
        }
        assert(results@.take(results@.len() as int) =~= results@);
        let changed = edits.len() > 0;
        self.apply_edits(worktree_id, edits);
        changed
    }

    /// Whether the entry at `path` still waits for the count of the state
    /// `fingerprint`.
    pub fn awaits(
        &self,
        worktree_id: WorktreeId,
        path: &RelPath,
        fingerprint: EntryFingerprint,
    ) -> (awaited: bool)
        ensures
            awaited == (self@.contains_key(worktree_id@) && is_awaited(
                self@[worktree_id@],
                path@,
                fingerprint,
            )),
    {
        match self.worktrees.get(&worktree_id) {
            Some(tree) => match tree.get(path) {
                Some(entry) => entry.state == LineCountState::Pending && entry.fingerprint == Some(
                    fingerprint,
                ),
                None => false,
            },
            None => false,
        }
    }

    /// Forgets the entry at `path` and all below it.
    pub fn remove_subtree(&mut self, worktree_id: WorktreeId, path: &RelPath)
        ensures
            final(self).filter() == old(self).filter(),
            final(self)@ == (if old(self)@.contains_key(worktree_id@) {
                old(self)@.insert(
                    worktree_id@,
                    ordered_map::restricted(
                        old(self)@[worktree_id@],
                        |p: Seq<char>, entry: LineCountEntry| !rel_path::lies_under(p, path@),
                    ),
                )
            } else {
                old(self)@
            }),
    {
        let ghost trees = self.worktrees@;
        let mut tree = match self.worktrees.remove(&worktree_id) {
            Some(tree) => tree,
            None => {
                assert(trees.remove(worktree_id@) =~= trees);
                return ;
            },
        };
        let ghost listing = tree.listing();
        let ghost known = tree@;
        let (from, to) = subtree_range(&tree, path);
        tree.remove_range(from, to);
        proof {
            ordered_map::lemma_map_of::<RelPath, LineCountEntry>(listing);
            let gone = ordered_map::keys_of(listing).subrange(from as int, to as int).to_set();
            assert forall|p: Seq<char>| #[trigger] known.contains_key(p) implies gone.contains(p)
                == rel_path::lies_under(p, path@) by {
                let i = choose|i: int| 0 <= i < listing.len() && (#[trigger] listing[i]).0 == p;
                let keys = ordered_map::keys_of(listing).subrange(from as int, to as int);
                if from <= i < to {
                    assert(keys[i - from] == p);
                } else if gone.contains(p) {
                    let k = choose|k: int| 0 <= k < keys.len() && keys[k] == p;
                    assert(listing[k + from].0 == p);
                }
            }
            assert(tree@ =~= ordered_map::restricted(
                known,
                |p: Seq<char>, entry: LineCountEntry| !rel_path::lies_under(p, path@),
            ));
            lemma_trees_insert(trees, worktree_id@, tree);
        }
        self.worktrees.insert(worktree_id, tree);
    }

    /// The lines of a file or directory, as far as they are known. Ignored and
    /// hidden entries can be left out of the total of a directory.
    pub fn line_count(
        &self,
        worktree_id: WorktreeId,
        entry: &Entry,
        hide_ignored: bool,
        hide_hidden: bool,
    ) -> (total: Option<LineCountTotal>)
        ensures
            self@.contains_key(worktree_id@) ==> self@[worktree_id@].dom().finite(),
            total == (if !self@.contains_key(worktree_id@) {
                None
            } else if entry.kind is File {
                file_total(self@[worktree_id@], entry.path@)
            } else {
                directory_total(self@[worktree_id@], entry.path@, hide_ignored, hide_hidden)
            }),
    {
        let tree = match self.worktrees.get(&worktree_id) {
            Some(tree) => tree,
            None => {
                return None;
            },
        };
        if entry.is_file() {
            return match tree.get(&entry.path) {
                Some(cached) => match cached.state {
                    LineCountState::Text(lines) => Some(
                        LineCountTotal { lines, is_partial: false },
                    ),
                    _ => None,
                },
                None => None,
            };
        }
        let summary = summary_under(tree, &entry.path);
        let aggregate: LineCountAggregate = match (hide_ignored, hide_hidden) {
            (false, false) => summary.all,
            (true, false) => summary.non_ignored,
            (false, true) => summary.non_hidden,
            (true, true) => summary.visible,
        };
        assert(aggregate == summary.part(hide_ignored, hide_hidden));
        aggregate.resolved_line_count()
    }
}

/// The positions of the entries at and below `directory`: they stand side by
/// side.
fn subtree_range(tree: &Tree, directory: &RelPath) -> (range: (usize, usize))
    ensures
        range.0 <= range.1 <= tree.listing().len(),
        ordered_map::strictly_ordered::<RelPath, LineCountEntry>(tree.listing()),
        forall|i: int|
            0 <= i < tree.listing().len() ==> (rel_path::lies_under(
                (#[trigger] tree.listing()[i]).0,
                directory@,
            ) <==> range.0 <= i < range.1),
{
    let ghost listing = tree.listing();
    let len: usize = tree.len();
    let from: usize = tree.lower_bound(directory);
    let mut to: usize = from;
    while to < len && tree.key_at(to).starts_with(directory)
        invariant
            listing == tree.listing(),
            len == listing.len(),
            from <= to <= len,
            forall|i: int|
                from <= i < to ==> rel_path::lies_under((#[trigger] listing[i]).0, directory@),
        ensures
            from <= to <= len,
            forall|i: int|
                from <= i < to ==> rel_path::lies_under((#[trigger] listing[i]).0, directory@),
            to < len ==> !rel_path::lies_under(listing[to as int].0, directory@),
        decreases len - to,
    {
        to = to + 1;
    }
    proof {
        assert forall|i: int| 0 <= i < listing.len() && rel_path::lies_under(
            (#[trigger] listing[i]).0,
            directory@,
        ) implies from <= i < to by {
            rel_path::lemma_under_not_before(listing[i].0, directory@);
            assert(from <= i);
            if to <= i {
                if to < i {
                    assert(RelPath::before(listing[to as int].0, listing[i].0));
                    assert(!RelPath::before(listing[to as int].0, directory@));
                    rel_path::lemma_under_contiguous(
                        directory@,
                        listing[to as int].0,
                        listing[i].0,
                    );
                }
            }
        }
    }
    (from, to)
}

/// The summary of the entries at and below `directory`.
fn summary_under(tree: &Tree, directory: &RelPath) -> (summary: LineCountSummary)
    ensures
        tree@.dom().finite(),
        forall|hide_ignored: bool, hide_hidden: bool| #[trigger]
            summary.part(hide_ignored, hide_hidden) == counts::capped(
                sum::sum_over(tree@, lines_under(directory@, hide_ignored, hide_hidden)),
                sum::sum_over(tree@, incomplete_under(directory@, hide_ignored, hide_hidden)),
            ),
{
    let ghost listing = tree.listing();
    let (from, to) = subtree_range(tree, directory);
    proof {
        ordered_map::lemma_map_of::<RelPath, LineCountEntry>(listing);
    }
    let mut summary = LineCountSummary::zero();
    proof {
        assert forall|hide_ignored: bool, hide_hidden: bool| #[trigger]
            summary.part(hide_ignored, hide_hidden) == summed(
                listing.take(from as int),
                directory@,
                hide_ignored,
                hide_hidden,
            ) by {
            lemma_summed_elsewhere(listing, 0, from as int, directory@, hide_ignored, hide_hidden);
            assert(listing.take(0) =~= Seq::<(Seq<char>, LineCountEntry)>::empty());
        }
    }
    for i in from..to
        invariant
            listing == tree.listing(),
            from <= to <= listing.len(),
            forall|k: int|
                from <= k < to ==> rel_path::lies_under((#[trigger] listing[k]).0, directory@),
            forall|hide_ignored: bool, hide_hidden: bool| #[trigger]
                summary.part(hide_ignored, hide_hidden) == summed(
                    listing.take(i as int),
                    directory@,
                    hide_ignored,
                    hide_hidden,
                ),
    {
        let ghost before = summary;
        let value = tree.value_at(i);
        summary.add_summary(&value.summary());
        proof {
            assert(listing.take(i + 1).drop_last() =~= listing.take(i as int));
            assert forall|hide_ignored: bool, hide_hidden: bool| #[trigger]
                summary.part(hide_ignored, hide_hidden) == summed(
                    listing.take(i + 1),
                    directory@,
                    hide_ignored,
                    hide_hidden,
                ) by {
                assert(before.part(hide_ignored, hide_hidden) == summed(
                    listing.take(i as int),
                    directory@,
                    hide_ignored,
                    hide_hidden,
                ));
                assert(rel_path::lies_under(listing[i as int].0, directory@));
            }
        }
    }
    proof {
        assert forall|hide_ignored: bool, hide_hidden: bool| #[trigger]
            summary.part(hide_ignored, hide_hidden) == counts::capped(
                sum::sum_over(tree@, lines_under(directory@, hide_ignored, hide_hidden)),
                sum::sum_over(tree@, incomplete_under(directory@, hide_ignored, hide_hidden)),
            ) by {
            lemma_summed_elsewhere(
                listing,
                to as int,
                listing.len() as int,
                directory@,
                hide_ignored,
                hide_hidden,
            );
            assert(listing.take(listing.len() as int) =~= listing);
            sum::lemma_sum_along::<RelPath, LineCountEntry>(
                listing,
                lines_under(directory@, hide_ignored, hide_hidden),
            );
            sum::lemma_sum_along::<RelPath, LineCountEntry>(
                listing,
                incomplete_under(directory@, hide_ignored, hide_hidden),
            );
        }
    }
    summary
}

/// The aggregate of what the pairs of a listing add to a directory.
spec fn summed(
    listing: Seq<(Seq<char>, LineCountEntry)>,
    directory: Seq<char>,
    hide_ignored: bool,
    hide_hidden: bool,
) -> LineCountAggregate {
    counts::capped(
        sum::sum_along(listing, lines_under(directory, hide_ignored, hide_hidden)),
        sum::sum_along(listing, incomplete_under(directory, hide_ignored, hide_hidden)),
    )
}

/// What lies elsewhere adds nothing.
proof fn lemma_summed_elsewhere(
    listing: Seq<(Seq<char>, LineCountEntry)>,
    from: int,
    to: int,
    directory: Seq<char>,
    hide_ignored: bool,
    hide_hidden: bool,
)
    requires
        0 <= from <= to <= listing.len(),
        forall|i: int|
            from <= i < to ==> !rel_path::lies_under((#[trigger] listing[i]).0, directory),
    ensures
        summed(listing.take(to), directory, hide_ignored, hide_hidden) == summed(
            listing.take(from),
            directory,
            hide_ignored,
            hide_hidden,
        ),
    decreases to - from,
{
    if from < to {
        lemma_summed_elsewhere(listing, from, to - 1, directory, hide_ignored, hide_hidden);
        assert(listing.take(to).drop_last() =~= listing.take(to - 1));
        assert(listing.take(to).last() == listing[to - 1]);
    }
}

impl Default for LineCountCache {
    fn default() -> (cache: LineCountCache)
        ensures
            cache@ == Map::<usize, Counts>::empty(),
            cache.filter().included() == Set::<Seq<char>>::empty(),
            cache.filter().excluded() == Set::<Seq<char>>::empty(),
    {
        LineCountCache::new(LineCountFilter::default())
    }
}

impl Clone for LineCountCache {
    fn clone(&self) -> (copy: LineCountCache)
        ensures
            copy@ == self@,
            copy.filter().included() == self.filter().included(),
            copy.filter().excluded() == self.filter().excluded(),
    {
        let mut worktrees: OrderedMap<WorktreeId, Tree> = OrderedMap::new();
        let len: usize = self.worktrees.len();
        let ghost listing = self.worktrees.listing();
        proof {
            ordered_map::lemma_map_of::<WorktreeId, Tree>(listing);
        }
        for i in 0..len
            invariant
                len == listing.len(),
                listing == self.worktrees.listing(),
                ordered_map::strictly_ordered::<WorktreeId, Tree>(listing),
                forall|k: int|
                    0 <= k < i ==> worktrees@.contains_key((#[trigger] listing[k]).0)
                        && worktrees@[listing[k].0]@ == listing[k].1@,
                forall|id: usize| #[trigger]
                    worktrees@.contains_key(id) ==> exists|k: int|
                        0 <= k < i && (#[trigger] listing[k]).0 == id,
        {
            proof {
                ordered_map::lemma_map_of::<WorktreeId, Tree>(listing);
            }
            let ghost before = worktrees@;
            worktrees.insert(
                self.worktrees.key_at(i).duplicate(),
                self.worktrees.value_at(i).duplicate(),
            );
            assert forall|id: usize| #[trigger] worktrees@.contains_key(id) implies exists|k: int|
                0 <= k < i + 1 && (#[trigger] listing[k]).0 == id by {
                if id == listing[i as int].0 {
                } else {
                    assert(before.contains_key(id));
                }
            }
        }
        let copy = LineCountCache { worktrees, filter: self.filter.clone() };
        proof {
            assert forall|id: usize| #[trigger] self.worktrees@.contains_key(
                id,
            ) implies worktrees@.contains_key(id) && worktrees@[id]@ == self.worktrees@[id]@ by {
                let k = choose|k: int| 0 <= k < listing.len() && (#[trigger] listing[k]).0 == id;
            }
            assert forall|id: usize| #[trigger] worktrees@.contains_key(
                id,
            ) implies self.worktrees@.contains_key(id) by {
                let k = choose|k: int| 0 <= k < listing.len() && (#[trigger] listing[k]).0 == id;
            }
            assert(copy@ =~= self@);
        }
        copy
    }
}

} // verus!
