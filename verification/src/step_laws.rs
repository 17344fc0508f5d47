//! What each step of a worker does, path by path.

use crate::cache;
use crate::cache::Counts;
use crate::counts;
use crate::counts::{EntryFingerprint, ProjectLineCount};
use crate::filter::LineCountFilter;
use crate::follow_laws;
use crate::order::Key;
use crate::ordered_map;
use crate::progress;
use crate::progress::{Entries, Progress};
use crate::queue::{PendingKey, MAX_BATCH_REQUESTS};
use crate::rel_path;
use crate::schedule;
use crate::schedule::Waiting;
use crate::update;
use crate::update::LineCountUpdate;
use crate::worker_laws;
use crate::worktree;
use vstd::prelude::*;

verus! {

/// What taking in all entries of a worktree does at a path. What is known there
/// afterwards is about the entry that is there, with its flags; a file whose time,
/// size or inode is not the one known is pending and waits to be counted, and
/// one that has not changed keeps what is known of it. Requests at paths without
/// an entry are dropped. Other worktrees and all batches stay as they are.
pub proof fn law_what_a_snapshot_does(
    filter: LineCountFilter,
    progress: Progress,
    id: usize,
    entries: Entries,
    path: Seq<char>,
)
    requires
        entries.contains_key(path) ==> entries[path].path@ == path,
    ensures
        ({
            let entry = entries[path];
            let here = entries.contains_key(path);
            let known = progress.known[id];
            let all = progress::after_reset(filter, progress, id, entries);
            let after = all.known[id];
            let counted = here && entry.kind is File && !entry.is_fifo && filter.admits(path);
            let unscanned = here && (entry.kind is PendingDir || entry.kind is UnloadedDir);
            let state = EntryFingerprint {
                mtime: entry.mtime,
                size: entry.size,
                inode: entry.inode,
            };
            let unchanged = progress.known.contains_key(id) && known.contains_key(path)
                && known[path].fingerprint == Some(state);
            &&& all.known.contains_key(id)
            &&& after.contains_key(path) <==> counted || unscanned
            &&& counted || unscanned ==> after[path].is_ignored == entry.is_ignored
                && after[path].is_hidden == entry.is_hidden
            &&& counted ==> after[path].fingerprint == Some(state)
            &&& counted && unchanged ==> after[path].state == known[path].state
            &&& counted && !unchanged ==> after[path].state is Pending
                && all.pending.contains_key((id, path)) && all.pending[(id, path)] == state
            &&& unscanned ==> after[path].fingerprint is None
            &&& here && entry.kind is PendingDir ==> after[path].state is Pending
            &&& here && entry.kind is UnloadedDir ==> after[path].state is Unscanned
            &&& !(counted && !unchanged) ==> {
                &&& all.pending.contains_key((id, path)) <==> here && progress.pending.contains_key(
                    (id, path),
                )
                &&& all.pending.contains_key((id, path)) ==> all.pending[(id, path)]
                    == progress.pending[(id, path)]
            }
            &&& forall|other: usize|
                other != id ==> #[trigger] worker_laws::same_counts(all, progress, other)
            &&& all.active == progress.active
        }),
{
}

/// What changes do at a path. Where an entry is at a changed path, what is known
/// there afterwards is about that entry, with its flags; a file whose time, size
/// or inode is not the one known, or that was left without a count, is pending
/// and waits to be counted, and any other keeps what is known of it. At and
/// below a changed path without an entry nothing is known any more. All else
/// stays as it is.
pub proof fn law_what_changes_do(
    filter: LineCountFilter,
    progress: Progress,
    id: usize,
    entries: Entries,
    changed: Set<Seq<char>>,
    path: Seq<char>,
)
    requires
        entries.contains_key(path) ==> entries[path].path@ == path,
    ensures
        ({
            let entry = entries[path];
            let here = changed.contains(path) && entries.contains_key(path);
            let below_gone = exists|gone: Seq<char>|
                changed.contains(gone) && !#[trigger] entries.contains_key(gone)
                    && rel_path::lies_under(path, gone);
            let known = cache::counts_in(progress.known, id);
            let all = progress::after_changes(filter, progress, id, entries, changed);
            let after = cache::counts_in(all.known, id);
            let counted = here && entry.kind is File && !entry.is_fifo && filter.admits(path);
            let unscanned = here && (entry.kind is PendingDir || entry.kind is UnloadedDir);
            let state = EntryFingerprint {
                mtime: entry.mtime,
                size: entry.size,
                inode: entry.inode,
            };
            let kept = {
                &&& known.contains_key(path)
                &&& !below_gone
                &&& known[path].fingerprint == Some(state)
                &&& !(known[path].state is Unavailable)
                &&& !(known[path].state is Unscanned)
            };
            &&& here ==> (after.contains_key(path) <==> counted || unscanned)
            &&& counted || unscanned ==> after[path].is_ignored == entry.is_ignored
                && after[path].is_hidden == entry.is_hidden
            &&& counted ==> after[path].fingerprint == Some(state)
            &&& counted && kept ==> after[path].state == known[path].state
            &&& counted && !kept ==> after[path].state is Pending && all.pending.contains_key(
                (id, path),
            ) && all.pending[(id, path)] == state
            &&& unscanned ==> after[path].fingerprint is None
            &&& here && entry.kind is PendingDir ==> after[path].state is Pending
            &&& here && entry.kind is UnloadedDir ==> after[path].state is Unscanned
            &&& !here ==> (after.contains_key(path) <==> known.contains_key(path) && !below_gone)
            &&& !here && after.contains_key(path) ==> after[path] == known[path]
            &&& !(counted && !kept) ==> {
                &&& all.pending.contains_key((id, path)) <==> progress.pending.contains_key(
                    (id, path),
                ) && !(changed.contains(path) && !entries.contains_key(path))
                &&& all.pending.contains_key((id, path)) ==> all.pending[(id, path)]
                    == progress.pending[(id, path)]
            }
            &&& forall|other: usize|
                other != id ==> #[trigger] worker_laws::same_counts(all, progress, other)
            &&& all.active == progress.active
        }),
{
    let below_gone = exists|gone: Seq<char>|
        changed.contains(gone) && !#[trigger] entries.contains_key(gone) && rel_path::lies_under(
            path,
            gone,
        );
    if below_gone {
        let gone = choose|gone: Seq<char>|
            changed.contains(gone) && !#[trigger] entries.contains_key(gone)
                && rel_path::lies_under(path, gone);
        assert(progress::is_gone(entries, changed, gone));
    }
    if progress::is_under_gone(entries, changed, path) {
        let gone = choose|gone: Seq<char>| #[trigger]
            progress::is_gone(entries, changed, gone) && rel_path::lies_under(path, gone);
        assert(!entries.contains_key(gone));
    }
    assert(below_gone == progress::is_under_gone(entries, changed, path));
    let known = cache::counts_in(progress.known, id);
    let left = progress::known_without_gone(progress.known, id, entries, changed);
    let counts = cache::counts_in(left, id);
    assert(counts =~= progress::counts_without_gone(known, entries, changed));
    let all = progress::after_changes(filter, progress, id, entries, changed);
    if changed.contains(path) && entries.contains_key(path) {
        assert(progress::is_present(entries, changed, path));
    }
    if exists|other: Seq<char>| #[trigger] progress::is_present(entries, changed, other) {
        assert(cache::counts_in(all.known, id) == progress::counts_with_present(
            filter,
            counts,
            entries,
            changed,
        ));
    } else {
        assert(cache::counts_in(all.known, id) == counts);
    }
}

/// An update of any kind is one of three: without a snapshot the worktree goes;
/// with changes that were kept one by one, these are made; and else all entries
/// of the snapshot are taken in. Several are made one after another.
pub proof fn law_kinds_of_updates(
    filter: LineCountFilter,
    progress: Progress,
    id: usize,
    update: LineCountUpdate,
    updates: Seq<(usize, Option<LineCountUpdate>)>,
)
    ensures
        progress::after_update(filter, progress, id, None) == progress::after_removal(
            progress,
            id,
        ),
        update.changes() is None ==> progress::after_update(filter, progress, id, Some(update))
            == progress::after_reset(filter, progress, id, update.snapshot().entries_by_path()),
        update.changes() matches Some(rounds) ==> progress::after_update(
            filter,
            progress,
            id,
            Some(update),
        ) == progress::after_changes(
            filter,
            progress,
            id,
            update.snapshot().entries_by_path(),
            update::changed_paths(rounds),
        ),
        progress::after_updates(filter, progress, Seq::empty()) == progress,
        progress::after_updates(filter, progress, updates.push((id, Some(update))))
            == progress::after_update(
            filter,
            progress::after_updates(filter, progress, updates),
            id,
            Some(update),
        ),
        progress::after_updates(filter, progress, updates.push((id, None)))
            == progress::after_update(
            filter,
            progress::after_updates(filter, progress, updates),
            id,
            None,
        ),
{
    assert(updates.push((id, Some(update))).drop_last() =~= updates);
    assert(updates.push((id, None)).drop_last() =~= updates);
}

/// Every counted file that differs in its time, its size or its inode from the
/// entry that its count was made for is pending after an update and waits to be
/// counted in its new state, whether the update brings a snapshot or changes.
pub proof fn law_changed_files_are_counted_again(
    filter: LineCountFilter,
    progress: Progress,
    id: usize,
    before: Entries,
    update: LineCountUpdate,
    path: Seq<char>,
)
    requires
        follow_laws::follows(filter, cache::counts_in(progress.known, id), before),
        before.contains_key(path),
        cache::is_counted(filter, before[path]),
        before[path].path@ == path,
        worktree::at_their_paths(update.snapshot().entries_by_path()),
        update.snapshot().entries_by_path().contains_key(path),
        update.snapshot().entries_by_path()[path].kind is File,
        !update.snapshot().entries_by_path()[path].is_fifo,
        update.changes() matches Some(rounds) ==> update::changed_paths(rounds).contains(path),
        ({
            let entry = update.snapshot().entries_by_path()[path];
            ||| entry.mtime != before[path].mtime
            ||| entry.size != before[path].size
            ||| entry.inode != before[path].inode
        }),
    ensures
        ({
            let entry = update.snapshot().entries_by_path()[path];
            let after = progress::after_update(filter, progress, id, Some(update));
            &&& after.known.contains_key(id)
            &&& after.known[id].contains_key(path)
            &&& after.known[id][path].state is Pending
            &&& after.pending.contains_key((id, path))
            &&& after.pending[(id, path)].mtime == entry.mtime
            &&& after.pending[(id, path)].size == entry.size
            &&& after.pending[(id, path)].inode == entry.inode
        }),
{
    let entries = update.snapshot().entries_by_path();
    let known = cache::counts_in(progress.known, id);
    assert(known.contains_key(path) == follow_laws::is_tracked(filter, before, path));
    assert(follow_laws::is_about(filter, known, before, path));
    match update.changes() {
        Some(rounds) => {
            let changed = update::changed_paths(rounds);
            law_what_changes_do(filter, progress, id, entries, changed, path);
            assert(progress::is_present(entries, changed, path));
        },
        None => law_what_a_snapshot_does(filter, progress, id, entries, path),
    }
}

/// Of several results about a path the first one is taken.
pub proof fn law_the_first_result_is_taken(
    results: Seq<ProjectLineCount>,
    path: Seq<char>,
    i: int,
)
    ensures
        0 <= i < results.len() && results[i].path@ == path && (forall|j: int|
            0 <= j < i ==> (#[trigger] results[j]).path@ != path) ==> progress::first_result(
            results,
            path,
        ) == Some(results[i]),
        (forall|j: int| 0 <= j < results.len() ==> (#[trigger] results[j]).path@ != path)
            ==> progress::first_result(results, path) is None,
    decreases results.len(),
{
    if results.len() > 0 {
        let front = results.drop_last();
        let last = results.len() - 1;
        law_the_first_result_is_taken(front, path, i);
        if 0 <= i < results.len() && results[i].path@ == path && (forall|j: int|
            0 <= j < i ==> (#[trigger] results[j]).path@ != path) {
            assert forall|j: int| 0 <= j < i implies (#[trigger] front[j]).path@ != path by {
                assert(results[j] == front[j]);
            }
            if i < last {
                assert(front[i] == results[i]);
            } else {
                assert forall|j: int| 0 <= j < front.len() implies (
                #[trigger] front[j]).path@ != path by {
                    assert(results[j] == front[j]);
                }
            }
        }
        if forall|j: int| 0 <= j < results.len() ==> (#[trigger] results[j]).path@ != path {
            assert forall|j: int| 0 <= j < front.len() implies (#[trigger] front[j]).path@
                != path by {
                assert(results[j] == front[j]);
            }
            assert(results[last].path@ != path);
        }
    }
}

/// What the results of a batch do at a path of its worktree. A request that they
/// answer is settled: an entry that still waits for it takes the answer and
/// keeps all else. Requests without a result stay open. When the batch comes to
/// its end, what is still open is left without a count. Nothing else changes.
pub proof fn law_what_results_do(
    progress: Progress,
    batch_id: usize,
    results: Option<Seq<ProjectLineCount>>,
    path: Seq<char>,
)
    requires
        progress.active.contains_key(batch_id),
    ensures
        ({
            let id = progress.active[batch_id].0;
            let requests = progress.active[batch_id].1;
            let known = progress.known[id];
            let all = progress::after_completion(progress, batch_id, results);
            let after = all.known[id];
            let answer = match results {
                Some(results) => progress::first_result(results, path),
                None => None,
            };
            let settled = requests.contains_key(path) && (answer is Some || results is None);
            let waits = progress.known.contains_key(id) && known.contains_key(path)
                && known[path].state is Pending && known[path].fingerprint == Some(
                requests[path],
            );
            &&& all.known.dom() == progress.known.dom()
            &&& progress.known.contains_key(id) ==> after.dom() == known.dom()
            &&& settled && waits ==> {
                &&& after[path].state == counts::state_after(requests[path], answer)
                &&& after[path].fingerprint == known[path].fingerprint
                &&& after[path].is_ignored == known[path].is_ignored
                &&& after[path].is_hidden == known[path].is_hidden
            }
            &&& progress.known.contains_key(id) && known.contains_key(path) && !(settled && waits)
                ==> after[path] == known[path]
            &&& results is Some ==> {
                &&& all.active.dom() == progress.active.dom()
                &&& all.active[batch_id].0 == id
                &&& all.active[batch_id].1.contains_key(path) <==> requests.contains_key(path)
                    && answer is None
                &&& all.active[batch_id].1.contains_key(path)
                    ==> all.active[batch_id].1[path] == requests[path]
            }
            &&& results is None ==> all.active.dom() == progress.active.dom().remove(batch_id)
            &&& forall|other: usize|
                other != batch_id && #[trigger] progress.active.contains_key(other)
                    ==> all.active[other] == progress.active[other]
            &&& forall|other: usize|
                other != id && #[trigger] progress.known.contains_key(other) ==> all.known[other]
                    == progress.known[other]
            &&& all.pending == progress.pending
        }),
{
    let id = progress.active[batch_id].0;
    let requests = progress.active[batch_id].1;
    let all = progress::after_completion(progress, batch_id, results);
    assert(all.known.dom() =~= progress.known.dom());
    if progress.known.contains_key(id) {
        assert(all.known[id].dom() =~= progress.known[id].dom());
    }
    if results is Some {
        assert(all.active.dom() =~= progress.active.dom());
    } else {
        assert(all.active.dom() =~= progress.active.dom().remove(batch_id));
    }
}

/// A request is wanted exactly as long as the file at its path is pending in the
/// state that it asks for.
pub proof fn law_wanted_requests(
    known: Map<usize, Counts>,
    id: usize,
    path: Seq<char>,
    asked: EntryFingerprint,
)
    ensures
        schedule::is_wanted(known, (id, path), asked) <==> {
            &&& known.contains_key(id)
            &&& known[id].contains_key(path)
            &&& known[id][path].state is Pending
            &&& known[id][path].fingerprint == Some(asked)
        },
{
}

/// The plan without its first batch.
proof fn lemma_first_of_plan(waiting: Waiting, known: Map<usize, Counts>, slots: nat)
    requires
        ordered_map::strictly_ordered::<PendingKey, EntryFingerprint>(waiting),
        waiting.len() > 0,
    ensures
        ({
            let count = schedule::first_taken(waiting, known) as int;
            let rest = waiting.skip(count);
            &&& 0 < count <= waiting.len()
            &&& ordered_map::strictly_ordered::<PendingKey, EntryFingerprint>(rest)
            &&& forall|i: int| 0 <= i < count ==> (#[trigger] waiting[i]).0.0 == waiting[0].0.0
        }),
{
    schedule::lemma_taken(waiting, known, waiting[0].0.0, MAX_BATCH_REQUESTS as nat);
    let count = schedule::first_taken(waiting, known) as int;
    let rest = waiting.skip(count);
    assert forall|i: int, j: int| 0 <= i < j < rest.len() implies PendingKey::before(
        #[trigger] rest[i].0,
        #[trigger] rest[j].0,
    ) by {
        assert(rest[i] == waiting[i + count] && rest[j] == waiting[j + count]);
    }
}

/// Requests are only left over by a batch that is full, or when their worktree's
/// turn is over.
proof fn lemma_batch_is_filled(waiting: Waiting, known: Map<usize, Counts>, id: usize, room: nat)
    requires
        ordered_map::strictly_ordered::<PendingKey, EntryFingerprint>(waiting),
        schedule::taken(waiting, known, id, room) < waiting.len(),
        waiting[schedule::taken(waiting, known, id, room) as int].0.0 == id,
    ensures
        ({
            let count = schedule::taken(waiting, known, id, room) as int;
            &&& schedule::wanted_among(waiting.take(count), known).len() == room
            &&& room > 0 ==> count > 0 && schedule::is_wanted(
                known,
                waiting[count - 1].0,
                waiting[count - 1].1,
            )
        }),
    decreases waiting.len(),
{
    let count = schedule::taken(waiting, known, id, room) as int;
    schedule::lemma_taken(waiting, known, id, room);
    if room == 0 {
        assert(waiting.take(0) =~= Seq::<((usize, Seq<char>), EntryFingerprint)>::empty());
    } else if waiting[0].0.0 != id {
        assert(count == 0);
    } else {
        let rest = waiting.skip(1);
        let wanted = schedule::is_wanted(known, waiting[0].0, waiting[0].1);
        let left = if wanted {
            (room - 1) as nat
        } else {
            room
        };
        assert forall|i: int, j: int| 0 <= i < j < rest.len() implies PendingKey::before(
            #[trigger] rest[i].0,
            #[trigger] rest[j].0,
        ) by {
            assert(rest[i] == waiting[i + 1] && rest[j] == waiting[j + 1]);
        }
        assert(rest[count - 1] == waiting[count]);
        lemma_batch_is_filled(rest, known, id, left);
        let tail = rest.take(count - 1);
        assert(waiting.take(count) =~= seq![waiting[0]] + tail);
        worker_laws::lemma_wanted_after_first(waiting[0], tail, known);
        let more = schedule::wanted_among(waiting.take(count), known);
        let less = schedule::wanted_among(tail, known);
        if wanted {
            assert forall|i: int| 0 <= i < tail.len() implies (#[trigger] tail[i]).0.0 == id by {
                assert(tail[i] == waiting[i + 1]);
            }
            assert(ordered_map::strictly_ordered::<PendingKey, EntryFingerprint>(tail)) by {
                assert forall|i: int, j: int| 0 <= i < j < tail.len() implies PendingKey::before(
                    #[trigger] tail[i].0,
                    #[trigger] tail[j].0,
                ) by {
                    assert(tail[i] == rest[i] && tail[j] == rest[j]);
                }
            }
            schedule::lemma_wanted_among(tail, known, id);
            assert(!less.contains_key(waiting[0].0.1)) by {
                if less.contains_key(waiting[0].0.1) {
                    let i = choose|i: int|
                        0 <= i < tail.len() && (#[trigger] tail[i]).0.1 == waiting[0].0.1
                            && tail[i].1 == less[waiting[0].0.1] && schedule::is_wanted(
                            known,
                            tail[i].0,
                            tail[i].1,
                        );
                    assert(tail[i] == waiting[i + 1]);
                    schedule::lemma_distinct_paths(waiting, id, 0, i + 1);
                }
            }
            assert(more.dom() == less.dom().insert(waiting[0].0.1));
        }
        if left > 0 {
            assert(waiting[count - 1] == rest[count - 2]);
        } else {
            lemma_nothing_taken(rest, known, id);
            assert(count == 1);
        }
    }
}

proof fn lemma_nothing_taken(waiting: Waiting, known: Map<usize, Counts>, id: usize)
    ensures
        schedule::taken(waiting, known, id, 0) == 0,
{
}

/// Batches are filled before another is begun: where a worktree has a request in
/// a later batch, or one that is left waiting, its earlier batches hold as many
/// requests as a batch can. What is in an earlier batch comes before what is in
/// a later one. And no more is used up than that: the first request left waiting
/// is one of another worktree than the last batch, or comes right after the last
/// request of a full one.
pub proof fn law_batches_are_filled(waiting: Waiting, known: Map<usize, Counts>, slots: nat)
    requires
        ordered_map::strictly_ordered::<PendingKey, EntryFingerprint>(waiting),
    ensures
        ({
            let made = schedule::planned(waiting, known, slots);
            let used = schedule::consumed(waiting, known, slots) as int;
            &&& forall|k: int, l: int|
                0 <= k < l < made.len() && (#[trigger] made[k]).0 == (#[trigger] made[l]).0
                    ==> made[k].1.len() == MAX_BATCH_REQUESTS
            &&& forall|k: int, i: int|
                0 <= k < made.len() && used <= i < waiting.len() && (#[trigger] made[k]).0 == (
                #[trigger] waiting[i]).0.0 ==> made[k].1.len() == MAX_BATCH_REQUESTS
            &&& forall|k: int, l: int, p: Seq<char>, q: Seq<char>|
                0 <= k < l < made.len() && (#[trigger] made[k].1.contains_key(p)) && (
                #[trigger] made[l].1.contains_key(q)) ==> PendingKey::before(
                    (made[k].0, p),
                    (made[l].0, q),
                )
            &&& made.len() > 0 && made.len() == slots && used < waiting.len() ==> {
                ||| waiting[used].0.0 != made.last().0
                ||| made.last().1.len() == MAX_BATCH_REQUESTS && used > 0 && schedule::is_wanted(
                    known,
                    waiting[used - 1].0,
                    waiting[used - 1].1,
                )
            }
        }),
    decreases waiting.len(),
{
    if slots > 0 && waiting.len() > 0 {
        let id = waiting[0].0.0;
        let count = schedule::first_taken(waiting, known) as int;
        let front = waiting.take(count);
        let rest = waiting.skip(count);
        let batch = schedule::first_batch(waiting, known);
        let empty = batch == Map::<Seq<char>, EntryFingerprint>::empty();
        let left = if empty {
            slots
        } else {
            (slots - 1) as nat
        };
        lemma_first_of_plan(waiting, known, slots);
        law_batches_are_filled(rest, known, left);
        worker_laws::lemma_plan_comes_from_the_front(waiting, known, slots);
        worker_laws::lemma_plan_comes_from_the_front(rest, known, left);
        worker_laws::law_batches_are_made_up_fairly(waiting, known, slots);
        worker_laws::law_batches_are_made_up_fairly(rest, known, left);
        let made = schedule::planned(waiting, known, slots);
        let later = schedule::planned(rest, known, left);
        let used = schedule::consumed(waiting, known, slots) as int;
        let used_later = schedule::consumed(rest, known, left) as int;
        let offset: int = if empty {
            0
        } else {
            1
        };
        assert(used == count + used_later);
        if empty {
            assert(made == later);
        } else {
            assert(made =~= seq![(id, batch)] + later);
        }
        // Whatever of the same worktree comes later stands right behind.
        assert forall|i: int| count <= i < waiting.len() && (
        #[trigger] waiting[i]).0.0 == id implies batch.len() == MAX_BATCH_REQUESTS
            && schedule::is_wanted(known, waiting[count - 1].0, waiting[count - 1].1) by {
            if count < i {
                assert(PendingKey::before(waiting[count].0, waiting[i].0));
            }
            assert(PendingKey::before(waiting[count - 1].0, waiting[count].0));
            assert(waiting[count - 1].0.0 == id);
            lemma_batch_is_filled(waiting, known, id, MAX_BATCH_REQUESTS as nat);
        }
        assert forall|k: int, l: int|
            0 <= k < l < made.len() && (#[trigger] made[k]).0 == (
            #[trigger] made[l]).0 implies made[k].1.len() == MAX_BATCH_REQUESTS by {
            assert(made[l] == later[l - offset]);
            if k >= offset {
                assert(made[k] == later[k - offset]);
            } else {
                assert(made[k] == (id, batch));
                let q = later[l - offset].1.dom().choose();
                assert(later[l - offset].1.len() > 0);
                assert(later[l - offset].1.contains_key(q));
                let j = choose|j: int|
                    0 <= j < used_later && j < rest.len() && #[trigger] rest[j] == (
                        (later[l - offset].0, q),
                        later[l - offset].1[q],
                    );
                assert(waiting[j + count] == rest[j]);
            }
        }
        assert forall|k: int, i: int|
            0 <= k < made.len() && used <= i < waiting.len() && (#[trigger] made[k]).0 == (
            #[trigger] waiting[i]).0.0 implies made[k].1.len() == MAX_BATCH_REQUESTS by {
            assert(rest[i - count] == waiting[i]);
            if k >= offset {
                assert(made[k] == later[k - offset]);
            } else {
                assert(made[k] == (id, batch));
            }
        }
        assert forall|k: int, l: int, p: Seq<char>, q: Seq<char>|
            0 <= k < l < made.len() && (#[trigger] made[k].1.contains_key(p)) && (
            #[trigger] made[l].1.contains_key(q)) implies PendingKey::before(
            (made[k].0, p),
            (made[l].0, q),
        ) by {
            assert(made[l] == later[l - offset]);
            assert(later[l - offset].1.contains_key(q));
            if k >= offset {
                assert(made[k] == later[k - offset]);
                assert(later[k - offset].1.contains_key(p));
            } else {
                assert(made[k] == (id, batch));
                worker_laws::lemma_first_batch_comes_first(waiting, known);
                let i = choose|i: int|
                    0 <= i < count && i < waiting.len() && #[trigger] waiting[i] == (
                        (id, p),
                        batch[p],
                    );
                let j = choose|j: int|
                    0 <= j < used_later && j < rest.len() && #[trigger] rest[j] == (
                        (later[l - offset].0, q),
                        later[l - offset].1[q],
                    );
                assert(waiting[j + count] == rest[j]);
                assert(PendingKey::before(waiting[i].0, waiting[j + count].0));
            }
        }
        if made.len() > 0 && made.len() == slots && used < waiting.len() {
            if later.len() > 0 {
                assert(made.last() == later.last());
                assert(rest[used_later] == waiting[used]);
                if used_later > 0 {
                    assert(rest[used_later - 1] == waiting[used - 1]);
                }
            } else {
                assert(left == 0);
                assert(used_later == 0);
                assert(made.last() == (id, batch));
            }
        }
    }
}

} // verus!
