//! What has happened to a worktree since its counts were last brought up to
//! date.

use crate::ordered_map::OrderedMap;
use crate::rel_path;
use crate::rel_path::RelPath;
use crate::worktree;
use crate::worktree::{Snapshot, UpdatedEntriesSet};
use vstd::prelude::*;

verus! {

/// How many changed entries are kept one by one. Beyond that the snapshot
/// alone tells what there is.
pub const MAX_CHANGED_ENTRIES: usize = 32768;

/// The texts of the paths of several rounds of changes.
pub open spec fn rounds_of(changes: Seq<Vec<RelPath>>) -> Seq<Seq<Seq<char>>> {
    Seq::new(changes.len(), |i: int| rel_path::texts_of(changes[i]@))
}

/// The number of paths in all rounds together.
pub open spec fn total_len(rounds: Seq<Seq<Seq<char>>>) -> nat
    decreases rounds.len(),
{
    if rounds.len() == 0 {
        0
    } else {
        total_len(rounds.drop_last()) + rounds.last().len()
    }
}

/// The paths that occur in any of the rounds.
pub open spec fn changed_paths(rounds: Seq<Seq<Seq<char>>>) -> Set<Seq<char>>
    decreases rounds.len(),
{
    if rounds.len() == 0 {
        Set::empty()
    } else {
        changed_paths(rounds.drop_last()).union(rounds.last().to_set())
    }
}

fn copy_of(paths: &Vec<RelPath>) -> (copy: Vec<RelPath>)
    ensures
        rel_path::texts_of(copy@) == rel_path::texts_of(paths@),
{
    let mut copy: Vec<RelPath> = Vec::new();
    for i in 0..paths.len()
        invariant
            copy@.len() == i,
            forall|j: int| 0 <= j < i ==> (#[trigger] copy@[j])@ == paths@[j]@,
    {
        copy.push(paths[i].clone());
    }
    assert(rel_path::texts_of(copy@) =~= rel_path::texts_of(paths@));
    copy
}

/// The latest snapshot of a worktree, and what has changed up to it; or the
/// snapshot alone, where that is not known entry by entry.
pub struct LineCountUpdate {
    snapshot: Snapshot,
    changes: Option<Vec<UpdatedEntriesSet>>,
    changed_entries: usize,
}

impl LineCountUpdate {
    pub closed spec fn snapshot(&self) -> Snapshot {
        self.snapshot
    }

    /// The paths that have changed, round by round.
    pub closed spec fn changes(&self) -> Option<Seq<Seq<Seq<char>>>> {
        match self.changes {
            Some(changes) => Some(rounds_of(changes@)),
            None => None,
        }
    }

    /// How many changes have come in.
    pub closed spec fn changed_entries(&self) -> nat {
        self.changed_entries as nat
    }

    #[verifier::type_invariant]
    closed spec fn few_changes_kept(&self) -> bool {
        self.changes() matches Some(rounds) ==> total_len(rounds) == self.changed_entries
            && self.changed_entries <= MAX_CHANGED_ENTRIES
    }

    /// A worktree as the snapshot shows it, whatever has changed in it.
    pub fn new(snapshot: Snapshot) -> (update: LineCountUpdate)
        ensures
            update.snapshot() == snapshot,
            update.changes() is None,
            update.changed_entries() == 0,
    {
        LineCountUpdate { snapshot, changes: None, changed_entries: 0 }
    }

    /// A worktree in which the entries at `changes` have changed.
    pub fn incremental(snapshot: Snapshot, changes: &UpdatedEntriesSet) -> (update:
        LineCountUpdate)
        ensures
            update.snapshot() == snapshot,
            update.changed_entries() == changes@.len(),
            update.changes() == (if changes@.len() > MAX_CHANGED_ENTRIES {
                None
            } else {
                Some(seq![rel_path::texts_of(changes@)])
            }),
    {
        let mut update = LineCountUpdate {
            snapshot,
            changes: Some(Vec::new()),
            changed_entries: 0,
        };
        assert(update.changes()->0 =~= Seq::<Seq<Seq<char>>>::empty());
        update.add_changes(changes);
        assert(changes@.len() == changes.len());
        assert(Seq::<Seq<Seq<char>>>::empty().push(rel_path::texts_of(changes@)) =~= seq![
            rel_path::texts_of(changes@),
        ]);
        update
    }

    /// Takes in a later snapshot and what has changed up to it. With too many
    /// changes to keep, only the snapshot stays: it supersedes them all.
    pub fn merge(&mut self, snapshot: Snapshot, changes: &UpdatedEntriesSet)
        ensures
            final(self).snapshot() == snapshot,
            final(self).changed_entries() == (if old(self).changed_entries() + changes@.len()
                <= usize::MAX {
                old(self).changed_entries() + changes@.len()
            } else {
                usize::MAX as nat
            }),
            final(self).changes() == (if final(self).changed_entries() > MAX_CHANGED_ENTRIES {
                None
            } else {
                match old(self).changes() {
                    Some(rounds) => Some(rounds.push(rel_path::texts_of(changes@))),
                    None => None,
                }
            }),
            final(self).changes() matches Some(rounds) ==> total_len(rounds)
                <= MAX_CHANGED_ENTRIES,
    {
        proof {
            use_type_invariant(&*self);
        }
        self.snapshot = snapshot;
        self.add_changes(changes);
        proof {
            use_type_invariant(&*self);
        }
    }

    /// The latest snapshot.
    pub fn latest(&self) -> (snapshot: &Snapshot)
        ensures
            *snapshot == self.snapshot(),
            worktree::at_their_paths(self.snapshot().entries_by_path()),
    {
        proof {
            use_type_invariant(&self.snapshot);
        }
        &self.snapshot
    }

    /// The paths that have changed in any round.
    pub fn paths(&self) -> (paths: Option<OrderedMap<RelPath, ()>>)
        ensures
            paths is Some <==> self.changes() is Some,
            paths matches Some(paths) ==> paths@.dom() == changed_paths(self.changes()->0),
    {
        let changes = match &self.changes {
            Some(changes) => changes,
            None => {
                return None;
            },
        };
        let ghost rounds = rounds_of(changes@);
        let mut paths: OrderedMap<RelPath, ()> = OrderedMap::new();
        assert(rounds.take(0) =~= Seq::<Seq<Seq<char>>>::empty());
        assert(paths@.dom() =~= changed_paths(rounds.take(0)));
        for i in 0..changes.len()
            invariant
                rounds == rounds_of(changes@),
                paths@.dom() == changed_paths(rounds.take(i as int)),
        {
            let round = &changes[i];
            let ghost before = paths@.dom();
            assert(before.union(rel_path::texts_of(round@).take(0).to_set()) =~= before);
            for k in 0..round.len()
                invariant
                    paths@.dom() == before.union(rel_path::texts_of(round@).take(k as int).to_set()),
            {
                let ghost taken = rel_path::texts_of(round@).take(k as int);
                paths.insert(round[k].clone(), ());
                proof {
                    let more = rel_path::texts_of(round@).take(k + 1);
                    assert(more =~= taken.push(round@[k as int]@));
                    assert forall|path: Seq<char>| more.contains(path) == (taken.contains(path)
                        || path == round@[k as int]@) by {
                        if taken.contains(path) {
                            let a = choose|a: int| 0 <= a < taken.len() && taken[a] == path;
                            assert(more[a] == path);
                        }
                        if path == round@[k as int]@ {
                            assert(more[k as int] == path);
                        }
                    }
                    assert(paths@.dom() =~= before.union(more.to_set()));
                }
            }
            proof {
                assert(rel_path::texts_of(round@).take(round@.len() as int) =~= rel_path::texts_of(round@));
                assert(rounds.take(i + 1).drop_last() =~= rounds.take(i as int));
                assert(rounds.take(i + 1).last() == rel_path::texts_of(round@));
            }
        }
        assert(rounds.take(rounds.len() as int) =~= rounds);
        Some(paths)
    }

    fn add_changes(&mut self, changes: &UpdatedEntriesSet)
        ensures
            final(self).snapshot() == old(self).snapshot(),
            final(self).changed_entries() == (if old(self).changed_entries() + changes@.len()
                <= usize::MAX {
                old(self).changed_entries() + changes@.len()
            } else {
                usize::MAX as nat
            }),
            final(self).changes() == (if final(self).changed_entries() > MAX_CHANGED_ENTRIES {
                None
            } else {
                match old(self).changes() {
                    Some(rounds) => Some(rounds.push(rel_path::texts_of(changes@))),
                    None => None,
                }
            }),
    {
        proof {
            use_type_invariant(&*self);
        }
        let mut kept: Option<Vec<UpdatedEntriesSet>> = None;
        std::mem::swap(&mut kept, &mut self.changes);
        self.changed_entries = self.changed_entries.saturating_add(changes.len());
        if self.changed_entries <= MAX_CHANGED_ENTRIES {
            if let Some(mut rounds) = kept {
                let ghost before = rounds_of(rounds@);
                rounds.push(copy_of(changes));
                proof {
                    let after = rounds_of(rounds@);
                    assert(after =~= before.push(rel_path::texts_of(changes@)));
                    assert(after.drop_last() =~= before);
                }
                self.changes = Some(rounds);
            }
        }
    }
}

} // verus!
