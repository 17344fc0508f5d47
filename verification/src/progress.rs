//! How far the counting of worktrees has come, and how events move it on.

use crate::cache;
use crate::cache::Counts;
use crate::counts;
use crate::counts::{EntryFingerprint, LineCountEntry, ProjectLineCount};
use crate::filter::LineCountFilter;
use crate::ordered_map;
use crate::queue::{ActiveRequests, PendingRequests, Requests};
use crate::rel_path;
use crate::update;
use crate::update::LineCountUpdate;
use crate::worktree::Entry;
use vstd::prelude::*;

verus! {

/// What is known of every worktree, the requests that wait, and the batches
/// that are being counted.
#[verifier::ext_equal]
pub struct Progress {
    pub known: Map<usize, Counts>,
    pub pending: PendingRequests,
    pub active: ActiveRequests,
}

/// The entries of a worktree by path.
pub type Entries = Map<Seq<char>, Entry>;

/// Nothing of a worktree is left: neither counts nor requests nor batches.
pub open spec fn after_removal(progress: Progress, id: usize) -> Progress {
    Progress {
        known: progress.known.remove(id),
        pending: ordered_map::restricted(
            progress.pending,
            |key: (usize, Seq<char>), fingerprint: EntryFingerprint| key.0 != id,
        ),
        active: ordered_map::restricted(
            progress.active,
            |batch_id: usize, batch: (usize, Requests)| batch.0 != id,
        ),
    }
}

/// The path has changed and there is nothing at it any more.
pub open spec fn is_gone(entries: Entries, changed: Set<Seq<char>>, path: Seq<char>) -> bool {
    changed.contains(path) && !entries.contains_key(path)
}

/// The path is gone, or lies below one that is.
pub open spec fn is_under_gone(
    entries: Entries,
    changed: Set<Seq<char>>,
    path: Seq<char>,
) -> bool {
    exists|gone: Seq<char>| #[trigger]
        is_gone(entries, changed, gone) && rel_path::lies_under(path, gone)
}

/// The path has changed and there is an entry at it.
pub open spec fn is_present(entries: Entries, changed: Set<Seq<char>>, path: Seq<char>) -> bool {
    changed.contains(path) && entries.contains_key(path)
}

/// What stays known when paths are gone.
pub open spec fn counts_without_gone(
    known: Counts,
    entries: Entries,
    changed: Set<Seq<char>>,
) -> Counts {
    ordered_map::restricted(
        known,
        |path: Seq<char>, entry: LineCountEntry| !is_under_gone(entries, changed, path),
    )
}

/// What is known of every worktree when paths of one are gone.
pub open spec fn known_without_gone(
    known: Map<usize, Counts>,
    id: usize,
    entries: Entries,
    changed: Set<Seq<char>>,
) -> Map<usize, Counts> {
    if known.contains_key(id) {
        known.insert(id, counts_without_gone(known[id], entries, changed))
    } else {
        known
    }
}

/// What is known when the entries that are still there have been looked at.
pub open spec fn counts_with_present(
    filter: LineCountFilter,
    known: Counts,
    entries: Entries,
    changed: Set<Seq<char>>,
) -> Counts {
    Map::new(
        |path: Seq<char>|
            if is_present(entries, changed, path) {
                cache::entry_on_change(filter, known, entries[path]) is Some
            } else {
                known.contains_key(path)
            },
        |path: Seq<char>|
            if is_present(entries, changed, path) {
                cache::entry_on_change(filter, known, entries[path])->0
            } else {
                known[path]
            },
    )
}

/// A changed path asks for a count.
pub open spec fn change_asks(
    filter: LineCountFilter,
    known: Counts,
    entries: Entries,
    changed: Set<Seq<char>>,
    path: Seq<char>,
) -> bool {
    &&& is_present(entries, changed, path)
    &&& cache::is_counted(filter, entries[path])
    &&& !cache::is_reusable(known, entries[path])
}

/// The paths in `changed` have changed: what is gone is forgotten, together
/// with all below it, and what is there is counted as far as need be.
pub open spec fn after_changes(
    filter: LineCountFilter,
    progress: Progress,
    id: usize,
    entries: Entries,
    changed: Set<Seq<char>>,
) -> Progress {
    let left = known_without_gone(progress.known, id, entries, changed);
    let counts = cache::counts_in(left, id);
    Progress {
        known: if exists|path: Seq<char>| #[trigger] is_present(entries, changed, path) {
            left.insert(id, counts_with_present(filter, counts, entries, changed))
        } else {
            left
        },
        pending: Map::new(
            |key: (usize, Seq<char>)|
                {
                    ||| key.0 == id && change_asks(filter, counts, entries, changed, key.1)
                    ||| progress.pending.contains_key(key) && !(key.0 == id && is_gone(
                        entries,
                        changed,
                        key.1,
                    ))
                },
            |key: (usize, Seq<char>)|
                if key.0 == id && change_asks(filter, counts, entries, changed, key.1) {
                    counts::fingerprint_of(entries[key.1])
                } else {
                    progress.pending[key]
                },
        ),
        active: progress.active,
    }
}

/// What is known of the entries of a worktree once they have all been looked
/// at.
pub open spec fn counts_of_all(
    filter: LineCountFilter,
    known: Counts,
    entries: Entries,
) -> Counts {
    Map::new(
        |path: Seq<char>|
            entries.contains_key(path) && cache::entry_on_reset(
                filter,
                known,
                entries[path],
            ) is Some,
        |path: Seq<char>| cache::entry_on_reset(filter, known, entries[path])->0,
    )
}

/// An entry of a worktree asks for a count.
pub open spec fn reset_asks(
    filter: LineCountFilter,
    known: Counts,
    entries: Entries,
    path: Seq<char>,
) -> bool {
    &&& entries.contains_key(path)
    &&& cache::is_counted(filter, entries[path])
    &&& !cache::is_current(known, entries[path])
}

/// The entries of a worktree are known to be just these.
pub open spec fn after_reset(
    filter: LineCountFilter,
    progress: Progress,
    id: usize,
    entries: Entries,
) -> Progress {
    let counts = cache::counts_in(progress.known, id);
    Progress {
        known: progress.known.insert(id, counts_of_all(filter, counts, entries)),
        pending: Map::new(
            |key: (usize, Seq<char>)|
                {
                    ||| key.0 == id && reset_asks(filter, counts, entries, key.1)
                    ||| progress.pending.contains_key(key) && (key.0 == id ==> entries.contains_key(
                        key.1,
                    ))
                },
            |key: (usize, Seq<char>)|
                if key.0 == id && reset_asks(filter, counts, entries, key.1) {
                    counts::fingerprint_of(entries[key.1])
                } else {
                    progress.pending[key]
                },
        ),
        active: progress.active,
    }
}

/// What an update does. No update at all means that the worktree is gone.
pub open spec fn after_update(
    filter: LineCountFilter,
    progress: Progress,
    id: usize,
    update: Option<LineCountUpdate>,
) -> Progress {
    match update {
        None => after_removal(progress, id),
        Some(update) => match update.changes() {
            Some(rounds) => after_changes(
                filter,
                progress,
                id,
                update.snapshot().entries_by_path(),
                update::changed_paths(rounds),
            ),
            None => after_reset(filter, progress, id, update.snapshot().entries_by_path()),
        },
    }
}

/// What updates do, one after another.
pub open spec fn after_updates(
    filter: LineCountFilter,
    progress: Progress,
    updates: Seq<(usize, Option<LineCountUpdate>)>,
) -> Progress
    decreases updates.len(),
{
    if updates.len() == 0 {
        progress
    } else {
        after_update(
            filter,
            after_updates(filter, progress, updates.drop_last()),
            updates.last().0,
            updates.last().1,
        )
    }
}

/// The first of the results that is about `path`.
pub open spec fn first_result(
    results: Seq<ProjectLineCount>,
    path: Seq<char>,
) -> Option<ProjectLineCount>
    decreases results.len(),
{
    if results.len() == 0 {
        None
    } else {
        match first_result(results.drop_last(), path) {
            Some(result) => Some(result),
            None => if results.last().path@ == path {
                Some(results.last())
            } else {
                None
            },
        }
    }
}

/// What was asked for and what came back, by path.
pub type Answers = Map<Seq<char>, (EntryFingerprint, Option<ProjectLineCount>)>;

/// The requests that results answer. The first result about a path counts.
pub open spec fn answered(requests: Requests, results: Seq<ProjectLineCount>) -> Answers {
    Map::new(
        |path: Seq<char>| requests.contains_key(path) && first_result(results, path) is Some,
        |path: Seq<char>| (requests[path], first_result(results, path)),
    )
}

/// The requests that results leave open.
pub open spec fn unanswered(requests: Requests, results: Seq<ProjectLineCount>) -> Requests {
    Map::new(
        |path: Seq<char>| requests.contains_key(path) && first_result(results, path) is None,
        |path: Seq<char>| requests[path],
    )
}

/// Nothing more comes back of what was asked for.
pub open spec fn given_up(requests: Requests) -> Answers {
    Map::new(
        |path: Seq<char>| requests.contains_key(path),
        |path: Seq<char>| (requests[path], None),
    )
}

/// What is known when answers have come in: only an entry that still waits for
/// its answer takes it.
pub open spec fn settled(known: Counts, answers: Answers) -> Counts {
    Map::new(
        |path: Seq<char>| known.contains_key(path),
        |path: Seq<char>|
            if answers.contains_key(path) && cache::is_awaited(known, path, answers[path].0) {
                LineCountEntry {
                    state: counts::state_after(answers[path].0, answers[path].1),
                    ..known[path]
                }
            } else {
                known[path]
            },
    )
}

/// What is known of every worktree when answers about one have come in.
pub open spec fn known_settled(
    known: Map<usize, Counts>,
    id: usize,
    answers: Answers,
) -> Map<usize, Counts> {
    if known.contains_key(id) {
        known.insert(id, settled(known[id], answers))
    } else {
        known
    }
}

/// A batch has brought results, or has come to its end. One that is not being
/// counted has no effect.
pub open spec fn after_completion(
    progress: Progress,
    batch_id: usize,
    results: Option<Seq<ProjectLineCount>>,
) -> Progress {
    if !progress.active.contains_key(batch_id) {
        progress
    } else {
        let id = progress.active[batch_id].0;
        let requests = progress.active[batch_id].1;
        match results {
            Some(results) => Progress {
                known: known_settled(progress.known, id, answered(requests, results)),
                active: progress.active.insert(batch_id, (id, unanswered(requests, results))),
                ..progress
            },
            None => Progress {
                known: known_settled(progress.known, id, given_up(requests)),
                active: progress.active.remove(batch_id),
                ..progress
            },
        }
    }
}

/// Requests put to the ones that wait, one after another.
pub open spec fn queued(
    pending: PendingRequests,
    id: usize,
    requests: Seq<(Seq<char>, EntryFingerprint)>,
) -> PendingRequests
    decreases requests.len(),
{
    if requests.len() == 0 {
        pending
    } else {
        queued(pending, id, requests.drop_last()).insert(
            (id, requests.last().0),
            requests.last().1,
        )
    }
}

/// One of the requests is about `path`.
pub open spec fn asks_about(
    requests: Seq<(Seq<char>, EntryFingerprint)>,
    path: Seq<char>,
) -> bool {
    exists|i: int| 0 <= i < requests.len() && (#[trigger] requests[i]).0 == path
}

pub proof fn lemma_queued(
    pending: PendingRequests,
    id: usize,
    requests: Seq<(Seq<char>, EntryFingerprint)>,
)
    ensures
        forall|key: (usize, Seq<char>)| #[trigger]
            queued(pending, id, requests).contains_key(key) <==> pending.contains_key(key) || (
            key.0 == id && asks_about(requests, key.1)),
        forall|key: (usize, Seq<char>)|
            !(key.0 == id && asks_about(requests, key.1)) ==> #[trigger] queued(
                pending,
                id,
                requests,
            )[key] == pending[key],
        forall|path: Seq<char>|
            asks_about(requests, path) ==> exists|i: int|
                0 <= i < requests.len() && (#[trigger] requests[i]).0 == path && requests[i].1
                    == #[trigger] queued(pending, id, requests)[(id, path)],
    decreases requests.len(),
{
    if requests.len() > 0 {
        let front = requests.drop_last();
        let last = requests.len() - 1;
        lemma_queued(pending, id, front);
        let before = queued(pending, id, front);
        let after = queued(pending, id, requests);
        assert forall|path: Seq<char>| asks_about(requests, path) <==> (asks_about(front, path)
            || path == requests[last].0) by {
            if asks_about(requests, path) && path != requests[last].0 {
                let i = choose|i: int|
                    0 <= i < requests.len() && (#[trigger] requests[i]).0 == path;
                assert(front[i] == requests[i]);
            }
            if asks_about(front, path) {
                let i = choose|i: int| 0 <= i < front.len() && (#[trigger] front[i]).0 == path;
                assert(requests[i] == front[i]);
            }
        }
        assert forall|path: Seq<char>| asks_about(requests, path) implies exists|i: int|
            0 <= i < requests.len() && (#[trigger] requests[i]).0 == path && requests[i].1
                == #[trigger] after[(id, path)] by {
            if path != requests[last].0 {
                assert(asks_about(front, path));
                let i = choose|i: int|
                    0 <= i < front.len() && (#[trigger] front[i]).0 == path && front[i].1
                        == before[(id, path)];
                assert(requests[i] == front[i]);
            } else {
                assert(requests[last].1 == after[(id, path)]);
            }
        }
    }
}

} // verus!
