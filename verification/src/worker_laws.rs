//! What holds of a worker whatever happens to it.

use crate::cache;
use crate::cache::Counts;
use crate::counts;
use crate::counts::{EntryFingerprint, ProjectLineCount};
use crate::filter::LineCountFilter;
use crate::order::Key;
use crate::ordered_map;
use crate::progress;
use crate::progress::{Entries, Progress};
use crate::queue::{ActiveRequests, PendingKey, Requests, MAX_ACTIVE_BATCHES, MAX_BATCH_REQUESTS};
use crate::rel_path;
use crate::schedule;
use crate::schedule::Waiting;
use crate::update;
use crate::update::LineCountUpdate;
use crate::worktree;
use vstd::prelude::*;

verus! {

/// The batch `batch_id` is still to bring the count of the state `fingerprint` of
/// the file at `path`.
pub open spec fn is_carried_by(
    active: ActiveRequests,
    batch_id: usize,
    id: usize,
    path: Seq<char>,
    fingerprint: EntryFingerprint,
) -> bool {
    &&& active.contains_key(batch_id)
    &&& active[batch_id].0 == id
    &&& active[batch_id].1.contains_key(path)
    &&& active[batch_id].1[path] == fingerprint
}

/// The count of the state `fingerprint` of the file at `path` is on its way: it
/// waits for its turn, or is being made.
pub open spec fn is_on_its_way(
    progress: Progress,
    id: usize,
    path: Seq<char>,
    fingerprint: EntryFingerprint,
) -> bool {
    ||| progress.pending.contains_key((id, path)) && progress.pending[(id, path)] == fingerprint
    ||| exists|batch_id: usize| #[trigger]
        is_carried_by(progress.active, batch_id, id, path, fingerprint)
}

/// Every count that is waited for is on its way.
pub open spec fn nothing_is_forgotten(progress: Progress) -> bool {
    forall|id: usize, path: Seq<char>, fingerprint: EntryFingerprint| #[trigger]
        schedule::is_wanted(progress.known, (id, path), fingerprint) ==> is_on_its_way(
            progress,
            id,
            path,
            fingerprint,
        )
}

/// A worker that knows nothing forgets nothing.
pub proof fn law_new_worker_forgets_nothing(progress: Progress)
    requires
        progress.known == Map::<usize, Counts>::empty(),
    ensures
        nothing_is_forgotten(progress),
{
}

/// What is carried stays so where the batches stay the same.
proof fn lemma_still_on_its_way(
    before: Progress,
    after: Progress,
    id: usize,
    path: Seq<char>,
    fingerprint: EntryFingerprint,
)
    requires
        is_on_its_way(before, id, path, fingerprint),
        before.pending.contains_key((id, path)) && before.pending[(id, path)] == fingerprint
            ==> is_on_its_way(after, id, path, fingerprint),
        forall|batch_id: usize|
            is_carried_by(before.active, batch_id, id, path, fingerprint) ==> #[trigger]
            is_carried_by(after.active, batch_id, id, path, fingerprint),
    ensures
        is_on_its_way(after, id, path, fingerprint),
{
    if !(before.pending.contains_key((id, path)) && before.pending[(id, path)] == fingerprint) {
        let batch_id = choose|batch_id: usize| #[trigger]
            is_carried_by(before.active, batch_id, id, path, fingerprint);
        assert(is_carried_by(after.active, batch_id, id, path, fingerprint));
    }
}

/// Every update, of whatever kind, leaves what is waited for on its way.
pub proof fn law_updates_forget_nothing(
    filter: LineCountFilter,
    progress: Progress,
    id: usize,
    update: Option<LineCountUpdate>,
)
    requires
        nothing_is_forgotten(progress),
        update matches Some(update) ==> worktree::at_their_paths(update.snapshot().entries_by_path()),
    ensures
        nothing_is_forgotten(progress::after_update(filter, progress, id, update)),
{
    match update {
        None => {
            let after = progress::after_removal(progress, id);
            assert forall|other: usize, path: Seq<char>, fingerprint: EntryFingerprint| #[trigger]
                schedule::is_wanted(after.known, (other, path), fingerprint) implies is_on_its_way(
                after,
                other,
                path,
                fingerprint,
            ) by {
                assert(schedule::is_wanted(progress.known, (other, path), fingerprint));
                lemma_still_on_its_way(progress, after, other, path, fingerprint);
            }
        },
        Some(update) => match update.changes() {
            Some(rounds) => lemma_changes_forget_nothing(
                filter,
                progress,
                id,
                update.snapshot().entries_by_path(),
                update::changed_paths(rounds),
            ),
            None => lemma_reset_forgets_nothing(
                filter,
                progress,
                id,
                update.snapshot().entries_by_path(),
            ),
        },
    }
}

/// Updates of any number of worktrees leave what is waited for on its way.
pub proof fn law_all_updates_forget_nothing(
    filter: LineCountFilter,
    progress: Progress,
    updates: Seq<(usize, Option<LineCountUpdate>)>,
)
    requires
        nothing_is_forgotten(progress),
        forall|i: int|
            0 <= i < updates.len() ==> ((#[trigger] updates[i]).1 matches Some(update)
                ==> worktree::at_their_paths(update.snapshot().entries_by_path())),
    ensures
        nothing_is_forgotten(progress::after_updates(filter, progress, updates)),
    decreases updates.len(),
{
    if updates.len() > 0 {
        let front = updates.drop_last();
        assert forall|i: int| 0 <= i < front.len() implies ((
        #[trigger] front[i]).1 matches Some(update)
            ==> worktree::at_their_paths(update.snapshot().entries_by_path())) by {
            assert(updates[i] == front[i]);
        }
        law_all_updates_forget_nothing(filter, progress, front);
        assert(updates.last() == updates[updates.len() - 1]);
        law_updates_forget_nothing(
            filter,
            progress::after_updates(filter, progress, front),
            updates.last().0,
            updates.last().1,
        );
    }
}

proof fn lemma_changes_forget_nothing(
    filter: LineCountFilter,
    progress: Progress,
    id: usize,
    entries: Entries,
    changed: Set<Seq<char>>,
)
    requires
        nothing_is_forgotten(progress),
        worktree::at_their_paths(entries),
    ensures
        nothing_is_forgotten(progress::after_changes(filter, progress, id, entries, changed)),
{
    let after = progress::after_changes(filter, progress, id, entries, changed);
    let left = progress::known_without_gone(progress.known, id, entries, changed);
    let counts = cache::counts_in(left, id);
    assert forall|other: usize, path: Seq<char>, fingerprint: EntryFingerprint| #[trigger]
        schedule::is_wanted(after.known, (other, path), fingerprint) implies is_on_its_way(
        after,
        other,
        path,
        fingerprint,
    ) by {
        if other != id {
            assert(schedule::is_wanted(progress.known, (other, path), fingerprint));
            lemma_still_on_its_way(progress, after, other, path, fingerprint);
        } else if progress::change_asks(filter, counts, entries, changed, path) {
            assert(progress::is_present(entries, changed, path));
            assert(after.pending.contains_key((id, path)));
        } else {
            if progress::is_present(entries, changed, path) {
                assert(entries[path].path@ == path);
            }
            assert(cache::is_awaited(counts, path, fingerprint));
            assert(schedule::is_wanted(progress.known, (id, path), fingerprint));
            if progress::is_gone(entries, changed, path) {
                assert(path.take(path.len() as int) =~= path);
                assert(rel_path::lies_under(path, path));
                assert(progress::is_under_gone(entries, changed, path));
                assert(false);
            }
            lemma_still_on_its_way(progress, after, id, path, fingerprint);
        }
    }
}

proof fn lemma_reset_forgets_nothing(
    filter: LineCountFilter,
    progress: Progress,
    id: usize,
    entries: Entries,
)
    requires
        nothing_is_forgotten(progress),
        worktree::at_their_paths(entries),
    ensures
        nothing_is_forgotten(progress::after_reset(filter, progress, id, entries)),
{
    let after = progress::after_reset(filter, progress, id, entries);
    let counts = cache::counts_in(progress.known, id);
    assert forall|other: usize, path: Seq<char>, fingerprint: EntryFingerprint| #[trigger]
        schedule::is_wanted(after.known, (other, path), fingerprint) implies is_on_its_way(
        after,
        other,
        path,
        fingerprint,
    ) by {
        if other != id {
            assert(schedule::is_wanted(progress.known, (other, path), fingerprint));
            lemma_still_on_its_way(progress, after, other, path, fingerprint);
        } else {
            assert(entries.contains_key(path));
            if progress::reset_asks(filter, counts, entries, path) {
                assert(after.pending.contains_key((id, path)));
            } else {
                assert(schedule::is_wanted(progress.known, (id, path), fingerprint));
                lemma_still_on_its_way(progress, after, id, path, fingerprint);
            }
        }
    }
}

/// The results of a batch, and its end, leave what is waited for on its way.
pub proof fn law_completions_forget_nothing(
    progress: Progress,
    batch_id: usize,
    results: Option<Seq<ProjectLineCount>>,
)
    requires
        nothing_is_forgotten(progress),
    ensures
        nothing_is_forgotten(progress::after_completion(progress, batch_id, results)),
{
    let after = progress::after_completion(progress, batch_id, results);
    if progress.active.contains_key(batch_id) {
        let id = progress.active[batch_id].0;
        let requests = progress.active[batch_id].1;
        let answers = match results {
            Some(results) => progress::answered(requests, results),
            None => progress::given_up(requests),
        };
        assert forall|other: usize, path: Seq<char>, fingerprint: EntryFingerprint| #[trigger]
            schedule::is_wanted(after.known, (other, path), fingerprint) implies is_on_its_way(
            after,
            other,
            path,
            fingerprint,
        ) by {
            assert(schedule::is_wanted(progress.known, (other, path), fingerprint));
            assert forall|b: usize|
                is_carried_by(progress.active, b, other, path, fingerprint) implies #[trigger]
            is_carried_by(after.active, b, other, path, fingerprint) by {
                if b == batch_id {
                    if answers.contains_key(path) {
                        assert(answers[path].0 == fingerprint);
                        assert(after.known[id][path].state == counts::state_after(
                            answers[path].0,
                            answers[path].1,
                        ));
                        assert(false);
                    }
                }
            }
            lemma_still_on_its_way(progress, after, other, path, fingerprint);
        }
    }
}

/// The batch `batch_id` is being counted, and this is what it asks for.
pub open spec fn has_number(
    active: ActiveRequests,
    batch_id: usize,
    batch: (usize, Requests),
) -> bool {
    active.contains_key(batch_id) && active[batch_id] == batch
}

/// The batches that are started, by number.
proof fn lemma_started(active: ActiveRequests, next: usize, made: Seq<(usize, Requests)>)
    requires
        next + made.len() <= usize::MAX,
        forall|batch_id: usize| #[trigger] active.contains_key(batch_id) ==> batch_id < next,
    ensures
        forall|batch_id: usize| #[trigger]
            active.contains_key(batch_id) ==> schedule::started(active, next, made).contains_key(
                batch_id,
            ) && schedule::started(active, next, made)[batch_id] == active[batch_id],
        forall|k: int|
            0 <= k < made.len() ==> #[trigger] has_number(
                schedule::started(active, next, made),
                (next + k) as usize,
                made[k],
            ),
        forall|batch_id: usize| #[trigger]
            schedule::started(active, next, made).contains_key(batch_id) ==> batch_id < next
                + made.len(),
        active.dom().finite() ==> schedule::started(active, next, made).dom().finite()
            && schedule::started(active, next, made).len() == active.len() + made.len(),
    decreases made.len(),
{
    if made.len() > 0 {
        let front = made.drop_last();
        let last = (next + made.len() - 1) as usize;
        lemma_started(active, next, front);
        assert(last == next + made.len() - 1);
        let before = schedule::started(active, next, front);
        let after = schedule::started(active, next, made);
        assert(after == before.insert(last, made.last()));
        assert forall|k: int| 0 <= k < made.len() implies #[trigger] has_number(
            after,
            (next + k) as usize,
            made[k],
        ) by {
            if k < front.len() {
                assert(has_number(before, (next + k) as usize, front[k]));
            }
        }
        assert forall|batch_id: usize| #[trigger] after.contains_key(batch_id) implies batch_id
            < next + made.len() by {
            if batch_id != last {
                assert(before.contains_key(batch_id));
            }
        }
    }
}

/// A batch holds no more than there is room for.
proof fn lemma_batch_fits(waiting: Waiting, known: Map<usize, Counts>, id: usize, room: nat)
    requires
        ordered_map::strictly_ordered::<PendingKey, EntryFingerprint>(waiting),
    ensures
        schedule::wanted_among(
            waiting.take(schedule::taken(waiting, known, id, room) as int),
            known,
        ).len() <= room,
        schedule::wanted_among(
            waiting.take(schedule::taken(waiting, known, id, room) as int),
            known,
        ).dom().finite(),
    decreases waiting.len(),
{
    schedule::lemma_taken(waiting, known, id, room);
    let count = schedule::taken(waiting, known, id, room) as int;
    let front = waiting.take(count);
    assert forall|i: int| 0 <= i < front.len() implies (#[trigger] front[i]).0.0 == id by {
        assert(front[i] == waiting[i]);
    }
    assert(ordered_map::strictly_ordered::<PendingKey, EntryFingerprint>(front));
    schedule::lemma_wanted_among(front, known, id);
    if room == 0 || waiting.len() == 0 || waiting[0].0.0 != id {
    } else {
        let rest = waiting.skip(1);
        let left = if schedule::is_wanted(known, waiting[0].0, waiting[0].1) {
            (room - 1) as nat
        } else {
            room
        };
        assert forall|i: int, j: int| 0 <= i < j < rest.len() implies PendingKey::before(
            #[trigger] rest[i].0,
            #[trigger] rest[j].0,
        ) by {
            assert(rest[i] == waiting[i + 1] && rest[j] == waiting[j + 1]);
        }
        lemma_batch_fits(rest, known, id, left);
        schedule::lemma_taken(rest, known, id, left);
        assert(front =~= seq![waiting[0]] + rest.take(count - 1));
        lemma_wanted_after_first(waiting[0], rest.take(count - 1), known);
    }
}

/// One more request at the front adds at most itself to a batch.
pub proof fn lemma_wanted_after_first(
    first: ((usize, Seq<char>), EntryFingerprint),
    rest: Waiting,
    known: Map<usize, Counts>,
)
    ensures
        schedule::wanted_among(rest, known).dom().finite(),
        schedule::wanted_among(seq![first] + rest, known).dom().finite(),
        schedule::wanted_among(seq![first] + rest, known).len() <= schedule::wanted_among(
            rest,
            known,
        ).len() + (if schedule::is_wanted(known, first.0, first.1) {
            1int
        } else {
            0int
        }),
        schedule::wanted_among(seq![first] + rest, known).dom() == (if schedule::is_wanted(
            known,
            first.0,
            first.1,
        ) {
            schedule::wanted_among(rest, known).dom().insert(first.0.1)
        } else {
            schedule::wanted_among(rest, known).dom()
        }),
    decreases rest.len(),
{
    let all = seq![first] + rest;
    if rest.len() == 0 {
        assert(all.drop_last() =~= Seq::<((usize, Seq<char>), EntryFingerprint)>::empty());
        assert(all.last() == first);
        assert(schedule::wanted_among(all.drop_last(), known) == Map::<
            Seq<char>,
            EntryFingerprint,
        >::empty());
        assert(schedule::wanted_among(all, known).dom() =~= (if schedule::is_wanted(
            known,
            first.0,
            first.1,
        ) {
            schedule::wanted_among(rest, known).dom().insert(first.0.1)
        } else {
            schedule::wanted_among(rest, known).dom()
        }));
    } else {
        lemma_wanted_after_first(first, rest.drop_last(), known);
        assert(all.drop_last() =~= seq![first] + rest.drop_last());
        assert(all.last() == rest.last());
        assert(schedule::wanted_among(all, known).dom() =~= (if schedule::is_wanted(
            known,
            first.0,
            first.1,
        ) {
            schedule::wanted_among(rest, known).dom().insert(first.0.1)
        } else {
            schedule::wanted_among(rest, known).dom()
        }));
    }
}

/// A request of the plan `made` asks for the count.
pub open spec fn is_planned(
    made: Seq<(usize, Requests)>,
    k: int,
    key: (usize, Seq<char>),
    fingerprint: EntryFingerprint,
) -> bool {
    &&& 0 <= k < made.len()
    &&& made[k].0 == key.0
    &&& made[k].1.contains_key(key.1)
    &&& made[k].1[key.1] == fingerprint
}

/// Some batch of the plan asks for the count.
pub open spec fn is_planned_somewhere(
    made: Seq<(usize, Requests)>,
    key: (usize, Seq<char>),
    fingerprint: EntryFingerprint,
) -> bool {
    exists|k: int| #[trigger] is_planned(made, k, key, fingerprint)
}

/// One of the first `end` waiting requests asks for the count.
pub open spec fn is_among_first(
    waiting: Waiting,
    end: int,
    key: (usize, Seq<char>),
    fingerprint: EntryFingerprint,
) -> bool {
    exists|i: int| 0 <= i < end && i < waiting.len() && #[trigger] waiting[i] == (key, fingerprint)
}

/// What goes into the first batch stands among the requests that it uses up.
pub proof fn lemma_first_batch_comes_first(waiting: Waiting, known: Map<usize, Counts>)
    requires
        ordered_map::strictly_ordered::<PendingKey, EntryFingerprint>(waiting),
        waiting.len() > 0,
    ensures
        forall|path: Seq<char>| #[trigger]
            schedule::first_batch(waiting, known).contains_key(path) ==> is_among_first(
                waiting,
                schedule::first_taken(waiting, known) as int,
                (waiting[0].0.0, path),
                schedule::first_batch(waiting, known)[path],
            ),
{
    let id = waiting[0].0.0;
    schedule::lemma_taken(waiting, known, id, MAX_BATCH_REQUESTS as nat);
    let count = schedule::first_taken(waiting, known) as int;
    let front = waiting.take(count);
    let batch = schedule::first_batch(waiting, known);
    assert forall|i: int| 0 <= i < front.len() implies (#[trigger] front[i]).0.0 == id by {
        assert(front[i] == waiting[i]);
    }
    assert(ordered_map::strictly_ordered::<PendingKey, EntryFingerprint>(front));
    schedule::lemma_wanted_among(front, known, id);
    assert forall|path: Seq<char>| #[trigger] batch.contains_key(path) implies is_among_first(
        waiting,
        count,
        (id, path),
        batch[path],
    ) by {
        let i = choose|i: int|
            0 <= i < front.len() && (#[trigger] front[i]).0.1 == path && front[i].1 == batch[path]
                && schedule::is_wanted(known, front[i].0, front[i].1);
        assert(front[i] == waiting[i]);
        assert(waiting[i] == ((id, path), batch[path]));
    }
}

/// What the plan asks for stands among the requests that it uses up, and a
/// request goes into one batch only.
pub proof fn lemma_plan_comes_from_the_front(
    waiting: Waiting,
    known: Map<usize, Counts>,
    slots: nat,
)
    requires
        ordered_map::strictly_ordered::<PendingKey, EntryFingerprint>(waiting),
    ensures
        forall|k: int, path: Seq<char>|
            0 <= k < schedule::planned(waiting, known, slots).len() && (
            #[trigger] schedule::planned(waiting, known, slots)[k].1.contains_key(path))
                ==> is_among_first(
                waiting,
                schedule::consumed(waiting, known, slots) as int,
                (schedule::planned(waiting, known, slots)[k].0, path),
                schedule::planned(waiting, known, slots)[k].1[path],
            ),
        forall|k: int, l: int, path: Seq<char>|
            0 <= k < l < schedule::planned(waiting, known, slots).len() && schedule::planned(
                waiting,
                known,
                slots,
            )[k].0 == schedule::planned(waiting, known, slots)[l].0 && (
            #[trigger] schedule::planned(waiting, known, slots)[k].1.contains_key(path)) ==> !(
            #[trigger] schedule::planned(waiting, known, slots)[l].1.contains_key(path)),
    decreases waiting.len(),
{
    if slots == 0 || waiting.len() == 0 {
    } else {
        let id = waiting[0].0.0;
        schedule::lemma_taken(waiting, known, id, MAX_BATCH_REQUESTS as nat);
        let count = schedule::first_taken(waiting, known) as int;
        let front = waiting.take(count);
        let rest = waiting.skip(count);
        let batch = schedule::first_batch(waiting, known);
        let empty = batch == Map::<Seq<char>, EntryFingerprint>::empty();
        let left = if empty {
            slots
        } else {
            (slots - 1) as nat
        };
        assert forall|i: int, j: int| 0 <= i < j < rest.len() implies PendingKey::before(
            #[trigger] rest[i].0,
            #[trigger] rest[j].0,
        ) by {
            assert(rest[i] == waiting[i + count] && rest[j] == waiting[j + count]);
        }
        lemma_plan_comes_from_the_front(rest, known, left);
        let later = schedule::planned(rest, known, left);
        let made = schedule::planned(waiting, known, slots);
        let used = schedule::consumed(rest, known, left) as int;
        assert forall|i: int| 0 <= i < front.len() implies (#[trigger] front[i]).0.0 == id by {
            assert(front[i] == waiting[i]);
        }
        assert(ordered_map::strictly_ordered::<PendingKey, EntryFingerprint>(front));
        schedule::lemma_wanted_among(front, known, id);
        let offset: int = if empty {
            0
        } else {
            1
        };
        if empty {
            assert(made == later);
        } else {
            assert(made =~= seq![(id, batch)] + later);
        }
        assert(schedule::consumed(waiting, known, slots) == count + used);
        assert forall|path: Seq<char>| #[trigger] batch.contains_key(path) implies is_among_first(
            waiting,
            count,
            (id, path),
            batch[path],
        ) by {
            let i = choose|i: int|
                0 <= i < front.len() && (#[trigger] front[i]).0.1 == path && front[i].1
                    == batch[path] && schedule::is_wanted(known, front[i].0, front[i].1);
            assert(front[i] == waiting[i]);
            assert(waiting[i] == ((id, path), batch[path]));
        }
        assert forall|k: int, path: Seq<char>|
            0 <= k < made.len() && (#[trigger] made[k].1.contains_key(path)) implies is_among_first(
            waiting,
            count + used,
            (made[k].0, path),
            made[k].1[path],
        ) by {
            if k >= offset {
                assert(made[k] == later[k - offset]);
                assert(later[k - offset].1.contains_key(path));
                let i = choose|i: int|
                    0 <= i < used && i < rest.len() && #[trigger] rest[i] == (
                        (made[k].0, path),
                        made[k].1[path],
                    );
                assert(waiting[i + count] == rest[i]);
            } else {
                assert(made[k] == (id, batch));
                assert(is_among_first(waiting, count, (id, path), batch[path]));
            }
        }
        assert forall|k: int, l: int, path: Seq<char>|
            0 <= k < l < made.len() && made[k].0 == made[l].0 && (
            #[trigger] made[k].1.contains_key(path)) implies !(
        #[trigger] made[l].1.contains_key(path)) by {
            assert(made[l] == later[l - offset]);
            if k >= offset {
                assert(made[k] == later[k - offset]);
                assert(later[k - offset].1.contains_key(path));
            } else if made[l].1.contains_key(path) {
                assert(made[k] == (id, batch));
                assert(is_among_first(waiting, count, (id, path), batch[path]));
                let i = choose|i: int|
                    0 <= i < count && i < waiting.len() && #[trigger] waiting[i] == (
                        (id, path),
                        batch[path],
                    );
                assert(later[l - offset].1.contains_key(path));
                let j = choose|j: int|
                    0 <= j < used && j < rest.len() && #[trigger] rest[j] == (
                        (made[l].0, path),
                        made[l].1[path],
                    );
                assert(waiting[j + count] == rest[j]);
                assert(PendingKey::before(waiting[i].0, waiting[j + count].0));
                PendingKey::lemma_irreflexive((id, path));
            }
        }
    }
}

/// The batches that are made up next: there are no more of them than slots, none
/// is empty or too large, all that they ask for is wanted, and of the requests
/// whose turn has come every one that is wanted is in a batch, and in one only.
/// Batches are made up of waiting requests alone, and those come before all that
/// are left. Requests are left waiting only when the slots are used up.
pub proof fn law_batches_are_made_up_fairly(
    waiting: Waiting,
    known: Map<usize, Counts>,
    slots: nat,
)
    requires
        ordered_map::strictly_ordered::<PendingKey, EntryFingerprint>(waiting),
    ensures
        schedule::consumed(waiting, known, slots) <= waiting.len(),
        schedule::planned(waiting, known, slots).len() <= slots,
        forall|k: int|
            0 <= k < schedule::planned(waiting, known, slots).len() ==> {
                let batch = #[trigger] schedule::planned(waiting, known, slots)[k];
                &&& batch.1.dom().finite()
                &&& 0 < batch.1.len() <= MAX_BATCH_REQUESTS
                &&& forall|path: Seq<char>| #[trigger]
                    batch.1.contains_key(path) ==> schedule::is_wanted(
                        known,
                        (batch.0, path),
                        batch.1[path],
                    )
            },
        forall|i: int|
            0 <= i < schedule::consumed(waiting, known, slots) && schedule::is_wanted(
                known,
                (#[trigger] waiting[i]).0,
                waiting[i].1,
            ) ==> is_planned_somewhere(
                schedule::planned(waiting, known, slots),
                waiting[i].0,
                waiting[i].1,
            ),
        schedule::consumed(waiting, known, slots) < waiting.len() ==> schedule::planned(
            waiting,
            known,
            slots,
        ).len() == slots,
        forall|k: int, path: Seq<char>|
            0 <= k < schedule::planned(waiting, known, slots).len() && (
            #[trigger] schedule::planned(waiting, known, slots)[k].1.contains_key(path))
                ==> is_among_first(
                waiting,
                schedule::consumed(waiting, known, slots) as int,
                (schedule::planned(waiting, known, slots)[k].0, path),
                schedule::planned(waiting, known, slots)[k].1[path],
            ),
        forall|k: int, path: Seq<char>, i: int|
            0 <= k < schedule::planned(waiting, known, slots).len() && (
            #[trigger] schedule::planned(waiting, known, slots)[k].1.contains_key(path))
                && schedule::consumed(waiting, known, slots) <= i < waiting.len()
                ==> PendingKey::before(
                (schedule::planned(waiting, known, slots)[k].0, path),
                (#[trigger] waiting[i]).0,
            ),
        forall|k: int, l: int, path: Seq<char>|
            0 <= k < l < schedule::planned(waiting, known, slots).len() && schedule::planned(
                waiting,
                known,
                slots,
            )[k].0 == schedule::planned(waiting, known, slots)[l].0 && (
            #[trigger] schedule::planned(waiting, known, slots)[k].1.contains_key(path)) ==> !(
            #[trigger] schedule::planned(waiting, known, slots)[l].1.contains_key(path)),
    decreases waiting.len(),
{
    lemma_plan_comes_from_the_front(waiting, known, slots);
    if slots == 0 || waiting.len() == 0 {
    } else {
        let id = waiting[0].0.0;
        schedule::lemma_taken(waiting, known, id, MAX_BATCH_REQUESTS as nat);
        let count = schedule::first_taken(waiting, known) as int;
        let front = waiting.take(count);
        let rest = waiting.skip(count);
        let batch = schedule::first_batch(waiting, known);
        let empty = batch == Map::<Seq<char>, EntryFingerprint>::empty();
        let left = if empty {
            slots
        } else {
            (slots - 1) as nat
        };
        assert forall|i: int, j: int| 0 <= i < j < rest.len() implies PendingKey::before(
            #[trigger] rest[i].0,
            #[trigger] rest[j].0,
        ) by {
            assert(rest[i] == waiting[i + count] && rest[j] == waiting[j + count]);
        }
        law_batches_are_made_up_fairly(rest, known, left);
        let later = schedule::planned(rest, known, left);
        let made = schedule::planned(waiting, known, slots);
        assert forall|i: int| 0 <= i < front.len() implies (#[trigger] front[i]).0.0 == id by {
            assert(front[i] == waiting[i]);
        }
        assert(ordered_map::strictly_ordered::<PendingKey, EntryFingerprint>(front));
        schedule::lemma_wanted_among(front, known, id);
        lemma_batch_fits(waiting, known, id, MAX_BATCH_REQUESTS as nat);
        let offset: int = if empty {
            0
        } else {
            1
        };
        if empty {
            assert(made == later);
        } else {
            assert(made =~= seq![(id, batch)] + later);
            if batch.len() == 0 {
                batch.dom().lemma_len0_is_empty();
                assert(batch =~= Map::<Seq<char>, EntryFingerprint>::empty());
            }
        }
        assert forall|k: int| 0 <= k < made.len() implies {
            let batch = #[trigger] made[k];
            &&& batch.1.dom().finite()
            &&& 0 < batch.1.len() <= MAX_BATCH_REQUESTS
            &&& forall|path: Seq<char>| #[trigger]
                batch.1.contains_key(path) ==> schedule::is_wanted(
                    known,
                    (batch.0, path),
                    batch.1[path],
                )
        } by {
            if k >= offset {
                assert(made[k] == later[k - offset]);
            } else {
                assert(made[k] == (id, batch));
                assert forall|path: Seq<char>| #[trigger]
                    batch.contains_key(path) implies schedule::is_wanted(
                    known,
                    (id, path),
                    batch[path],
                ) by {
                    let i = choose|i: int|
                        0 <= i < front.len() && (#[trigger] front[i]).0.1 == path && front[i].1
                            == batch[path] && schedule::is_wanted(known, front[i].0, front[i].1);
                    assert(front[i].0 == (id, path));
                }
            }
        }
        assert forall|i: int|
            0 <= i < schedule::consumed(waiting, known, slots) && schedule::is_wanted(
                known,
                (#[trigger] waiting[i]).0,
                waiting[i].1,
            ) implies is_planned_somewhere(made, waiting[i].0, waiting[i].1) by {
            if i < count {
                assert(front[i] == waiting[i]);
                assert(batch.contains_key(waiting[i].0.1));
                assert(is_planned(made, 0, waiting[i].0, waiting[i].1));
            } else {
                assert(rest[i - count] == waiting[i]);
                assert(is_planned_somewhere(later, waiting[i].0, waiting[i].1));
                let k = choose|k: int| #[trigger]
                    is_planned(later, k, waiting[i].0, waiting[i].1);
                assert(made[k + offset] == later[k]);
                assert(is_planned(made, k + offset, waiting[i].0, waiting[i].1));
            }
        }
    }
}

/// Batches are started as long as there is a free slot and a wanted request, and
/// no longer: afterwards all slots are taken or nothing waits. They get the next
/// numbers in turn, and the batches that are being counted already stay as they
/// are. Without a free slot nothing is started and no request is looked at.
pub proof fn law_batches_use_the_free_slots(
    known: Map<usize, Counts>,
    waiting: Waiting,
    active: ActiveRequests,
    next: usize,
)
    requires
        ordered_map::strictly_ordered::<PendingKey, EntryFingerprint>(waiting),
        active.dom().finite(),
        active.len() <= MAX_ACTIVE_BATCHES,
        forall|batch_id: usize| #[trigger] active.contains_key(batch_id) ==> batch_id < next,
        next + (MAX_ACTIVE_BATCHES - active.len()) <= usize::MAX,
    ensures
        ({
            let slots = (MAX_ACTIVE_BATCHES - active.len()) as nat;
            let made = schedule::planned(waiting, known, slots);
            let after = schedule::started(active, next, made);
            &&& after.dom().finite()
            &&& after.len() == active.len() + made.len()
            &&& after.len() <= MAX_ACTIVE_BATCHES
            &&& after.len() == MAX_ACTIVE_BATCHES || schedule::consumed(waiting, known, slots)
                == waiting.len()
            &&& forall|batch_id: usize| #[trigger]
                active.contains_key(batch_id) ==> has_number(after, batch_id, active[batch_id])
            &&& forall|k: int|
                0 <= k < made.len() ==> #[trigger] has_number(
                    after,
                    (next + k) as usize,
                    made[k],
                )
            &&& active.len() == MAX_ACTIVE_BATCHES ==> made.len() == 0 && schedule::consumed(
                waiting,
                known,
                slots,
            ) == 0
        }),
{
    let slots = (MAX_ACTIVE_BATCHES - active.len()) as nat;
    law_batches_are_made_up_fairly(waiting, known, slots);
    lemma_started(active, next, schedule::planned(waiting, known, slots));
}

/// Making up batches leaves what is waited for on its way.
pub proof fn law_batches_forget_nothing(
    known: Map<usize, Counts>,
    waiting: Waiting,
    active: ActiveRequests,
    next: usize,
    slots: nat,
)
    requires
        ordered_map::strictly_ordered::<PendingKey, EntryFingerprint>(waiting),
        forall|batch_id: usize| #[trigger] active.contains_key(batch_id) ==> batch_id < next,
        next + schedule::planned(waiting, known, slots).len() <= usize::MAX,
        nothing_is_forgotten(
            (Progress { known, pending: ordered_map::map_of(waiting), active }),
        ),
    ensures
        nothing_is_forgotten(
            (Progress {
                known,
                pending: ordered_map::map_of(
                    waiting.skip(schedule::consumed(waiting, known, slots) as int),
                ),
                active: schedule::started(
                    active,
                    next,
                    schedule::planned(waiting, known, slots),
                ),
            }),
        ),
{
    let made = schedule::planned(waiting, known, slots);
    let count = schedule::consumed(waiting, known, slots) as int;
    law_batches_are_made_up_fairly(waiting, known, slots);
    let rest = waiting.skip(count);
    let before = Progress { known, pending: ordered_map::map_of(waiting), active };
    let after = Progress {
        known,
        pending: ordered_map::map_of(rest),
        active: schedule::started(active, next, made),
    };
    lemma_started(active, next, made);
    assert forall|i: int, j: int| 0 <= i < j < rest.len() implies PendingKey::before(
        #[trigger] rest[i].0,
        #[trigger] rest[j].0,
    ) by {
        assert(rest[i] == waiting[i + count] && rest[j] == waiting[j + count]);
    }
    ordered_map::lemma_map_of::<PendingKey, EntryFingerprint>(waiting);
    ordered_map::lemma_map_of::<PendingKey, EntryFingerprint>(rest);
    assert forall|id: usize, path: Seq<char>, fingerprint: EntryFingerprint| #[trigger]
        schedule::is_wanted(after.known, (id, path), fingerprint) implies is_on_its_way(
        after,
        id,
        path,
        fingerprint,
    ) by {
        assert(schedule::is_wanted(before.known, (id, path), fingerprint));
        if before.pending.contains_key((id, path)) && before.pending[(id, path)] == fingerprint {
            let i = choose|i: int|
                0 <= i < waiting.len() && (#[trigger] waiting[i]).0 == (id, path);
            if i < count {
                assert(schedule::is_wanted(known, waiting[i].0, waiting[i].1));
                assert(is_planned_somewhere(made, waiting[i].0, waiting[i].1));
                let k = choose|k: int| #[trigger]
                    is_planned(made, k, waiting[i].0, waiting[i].1);
                let batch_id = (next + k) as usize;
                assert(has_number(after.active, batch_id, made[k]));
                assert(is_carried_by(after.active, batch_id, id, path, fingerprint));
            } else {
                assert(rest[i - count] == waiting[i]);
            }
        }
        lemma_still_on_its_way(before, after, id, path, fingerprint);
    }
}

/// Updates of different worktrees do not get in each other's way: it does not
/// matter which one comes first.
pub proof fn law_updates_of_different_worktrees_commute(
    filter: LineCountFilter,
    progress: Progress,
    a: usize,
    first: Option<LineCountUpdate>,
    b: usize,
    second: Option<LineCountUpdate>,
)
    requires
        a != b,
    ensures
        progress::after_update(
            filter,
            progress::after_update(filter, progress, a, first),
            b,
            second,
        ) == progress::after_update(
            filter,
            progress::after_update(filter, progress, b, second),
            a,
            first,
        ),
{
    let ab = progress::after_update(
        filter,
        progress::after_update(filter, progress, a, first),
        b,
        second,
    );
    let ba = progress::after_update(
        filter,
        progress::after_update(filter, progress, b, second),
        a,
        first,
    );
    lemma_update_stays_apart(filter, progress, a, first, b);
    lemma_update_stays_apart(filter, progress, b, second, a);
    lemma_update_stays_apart(
        filter,
        progress::after_update(filter, progress, a, first),
        b,
        second,
        a,
    );
    lemma_update_stays_apart(
        filter,
        progress::after_update(filter, progress, b, second),
        a,
        first,
        b,
    );
    lemma_update_is_local(
        filter,
        progress,
        progress::after_update(filter, progress, b, second),
        a,
        first,
    );
    lemma_update_is_local(
        filter,
        progress,
        progress::after_update(filter, progress, a, first),
        b,
        second,
    );
    assert forall|id: usize| id != a && id != b implies same_counts(ab, ba, id) by {
        lemma_update_stays_apart(filter, progress, a, first, id);
        lemma_update_stays_apart(filter, progress, b, second, id);
        lemma_update_stays_apart(
            filter,
            progress::after_update(filter, progress, a, first),
            b,
            second,
            id,
        );
        lemma_update_stays_apart(
            filter,
            progress::after_update(filter, progress, b, second),
            a,
            first,
            id,
        );
    }
    assert forall|id: usize| same_counts(ab, ba, id) by {
    }
    assert forall|id: usize| ab.known.contains_key(id) == ba.known.contains_key(id) && (
    ab.known.contains_key(id) ==> ab.known[id] == ba.known[id]) by {
        assert(same_counts(ab, ba, id));
    }
    assert(ab.known =~= ba.known);
    assert forall|key: (usize, Seq<char>)| ab.pending.contains_key(key) == ba.pending.contains_key(
        key,
    ) && (ab.pending.contains_key(key) ==> ab.pending[key] == ba.pending[key]) by {
        assert(same_counts(ab, ba, key.0));
    }
    assert(ab.pending =~= ba.pending);
    assert(ab.active =~= ba.active);
    assert(ab =~= ba);
}

/// What is known of a worktree, and what waits of it, is the same.
pub open spec fn same_counts(p: Progress, q: Progress, id: usize) -> bool {
    &&& p.known.contains_key(id) == q.known.contains_key(id)
    &&& p.known.contains_key(id) ==> p.known[id] == q.known[id]
    &&& forall|path: Seq<char>| #[trigger]
        p.pending.contains_key((id, path)) == q.pending.contains_key((id, path)) && (
        p.pending.contains_key((id, path)) ==> p.pending[(id, path)] == q.pending[(id, path)])
}

/// An update leaves other worktrees alone.
proof fn lemma_update_stays_apart(
    filter: LineCountFilter,
    progress: Progress,
    id: usize,
    update: Option<LineCountUpdate>,
    other: usize,
)
    ensures
        other != id ==> same_counts(
            progress::after_update(filter, progress, id, update),
            progress,
            other,
        ),
{
}

/// What an update does to its worktree depends on that worktree alone.
proof fn lemma_update_is_local(
    filter: LineCountFilter,
    p: Progress,
    q: Progress,
    id: usize,
    update: Option<LineCountUpdate>,
)
    requires
        same_counts(p, q, id),
    ensures
        same_counts(
            progress::after_update(filter, p, id, update),
            progress::after_update(filter, q, id, update),
            id,
        ),
{
}

/// Where no request is left waiting, everything that is waited for is being
/// counted.
pub proof fn law_all_is_being_counted_when_nothing_is_pending(
    progress: Progress,
    id: usize,
    path: Seq<char>,
    fingerprint: EntryFingerprint,
)
    requires
        nothing_is_forgotten(progress),
        progress.pending == Map::<(usize, Seq<char>), EntryFingerprint>::empty(),
        schedule::is_wanted(progress.known, (id, path), fingerprint),
    ensures
        exists|batch_id: usize| #[trigger]
            is_carried_by(progress.active, batch_id, id, path, fingerprint),
{
}

/// A worker with nothing waiting and nothing being counted waits for nothing:
/// every count that was ever asked for has come, or has been given up.
pub proof fn law_idle_worker_waits_for_nothing(
    progress: Progress,
    id: usize,
    path: Seq<char>,
    fingerprint: EntryFingerprint,
)
    requires
        nothing_is_forgotten(progress),
        progress.pending == Map::<(usize, Seq<char>), EntryFingerprint>::empty(),
        progress.active == Map::<usize, (usize, Requests)>::empty(),
    ensures
        !schedule::is_wanted(progress.known, (id, path), fingerprint),
{
}

/// Nothing is left of a worktree that is gone, and all of the others stays.
pub proof fn law_removed_worktrees_leave_nothing(
    filter: LineCountFilter,
    progress: Progress,
    id: usize,
)
    ensures
        ({
            let after = progress::after_update(filter, progress, id, None);
            &&& !after.known.contains_key(id)
            &&& forall|path: Seq<char>| !#[trigger] after.pending.contains_key((id, path))
            &&& forall|batch_id: usize| #[trigger]
                after.active.contains_key(batch_id) ==> after.active[batch_id].0 != id
            &&& forall|batch_id: usize|
                #![trigger after.active.contains_key(batch_id)]
                progress.active.contains_key(batch_id) && progress.active[batch_id].0 != id
                    ==> after.active.contains_key(batch_id) && after.active[batch_id]
                    == progress.active[batch_id]
            &&& forall|other: usize| other != id ==> #[trigger] same_counts(after, progress, other)
        }),
{
}

/// Once a batch has come to its end, nothing waits for what it was to bring.
pub proof fn law_finished_batches_are_not_waited_for(
    progress: Progress,
    batch_id: usize,
    path: Seq<char>,
)
    requires
        progress.active.contains_key(batch_id),
        progress.active[batch_id].1.contains_key(path),
    ensures
        ({
            let after = progress::after_completion(progress, batch_id, None);
            &&& !after.active.contains_key(batch_id)
            &&& !schedule::is_wanted(
                after.known,
                (progress.active[batch_id].0, path),
                progress.active[batch_id].1[path],
            )
        }),
{
}

/// Results for a batch that is not being counted, such as one that has been
/// cancelled, change nothing.
pub proof fn law_late_results_change_nothing(
    progress: Progress,
    batch_id: usize,
    results: Option<Seq<ProjectLineCount>>,
)
    requires
        !progress.active.contains_key(batch_id),
    ensures
        progress::after_completion(progress, batch_id, results) == progress,
{
}

/// Results of a batch do not touch other worktrees or other batches, and a batch
/// that has brought some keeps its slot.
pub proof fn law_results_stay_in_their_batch(
    progress: Progress,
    batch_id: usize,
    results: Seq<ProjectLineCount>,
)
    ensures
        ({
            let after = progress::after_completion(progress, batch_id, Some(results));
            &&& after.active.dom() == progress.active.dom()
            &&& forall|other: usize|
                other != batch_id && #[trigger] progress.active.contains_key(other)
                    ==> after.active[other] == progress.active[other]
            &&& forall|id: usize|
                progress.active.contains_key(batch_id) && id != progress.active[batch_id].0
                    ==> #[trigger] same_counts(after, progress, id)
        }),
{
    assert(progress::after_completion(progress, batch_id, Some(results)).active.dom()
        =~= progress.active.dom());
}

/// No worktree occurs twice among updates.
pub open spec fn distinct_worktrees(updates: Seq<(usize, Option<LineCountUpdate>)>) -> bool {
    forall|i: int, j: int|
        0 <= i < j < updates.len() ==> (#[trigger] updates[i]).0 != (#[trigger] updates[j]).0
}

/// An update can be put off until after the others.
proof fn lemma_last_of_all(
    filter: LineCountFilter,
    progress: Progress,
    updates: Seq<(usize, Option<LineCountUpdate>)>,
    at: int,
)
    requires
        distinct_worktrees(updates),
        0 <= at < updates.len(),
    ensures
        progress::after_updates(filter, progress, updates) == progress::after_update(
            filter,
            progress::after_updates(filter, progress, updates.remove(at)),
            updates[at].0,
            updates[at].1,
        ),
    decreases updates.len(),
{
    let last = updates.len() - 1;
    let front = updates.drop_last();
    if at == last {
        assert(updates.remove(at) =~= front);
    } else {
        assert forall|i: int, j: int| 0 <= i < j < front.len() implies (#[trigger] front[i]).0 != (
        #[trigger] front[j]).0 by {
            assert(updates[i].0 != updates[j].0);
        }
        lemma_last_of_all(filter, progress, front, at);
        let others = updates.remove(at);
        assert(others.drop_last() =~= front.remove(at));
        assert(others.last() == updates[last]);
        assert(front[at] == updates[at]);
        law_updates_of_different_worktrees_commute(
            filter,
            progress::after_updates(filter, progress, front.remove(at)),
            updates[at].0,
            updates[at].1,
            updates[last].0,
            updates[last].1,
        );
    }
}

/// It does not matter in which order the updates of several worktrees are made.
pub proof fn law_order_of_updates_does_not_matter(
    filter: LineCountFilter,
    progress: Progress,
    updates: Seq<(usize, Option<LineCountUpdate>)>,
    reordered: Seq<(usize, Option<LineCountUpdate>)>,
)
    requires
        distinct_worktrees(updates),
        distinct_worktrees(reordered),
        reordered.len() == updates.len(),
        forall|i: int| 0 <= i < updates.len() ==> reordered.contains(#[trigger] updates[i]),
    ensures
        progress::after_updates(filter, progress, reordered) == progress::after_updates(
            filter,
            progress,
            updates,
        ),
    decreases updates.len(),
{
    if updates.len() > 0 {
        let last = updates.len() - 1;
        let front = updates.drop_last();
        assert(reordered.contains(updates[last]));
        let at = choose|at: int| 0 <= at < reordered.len() && reordered[at] == updates[last];
        let others = reordered.remove(at);
        assert forall|i: int, j: int| 0 <= i < j < others.len() implies (#[trigger] others[i]).0
            != (#[trigger] others[j]).0 by {
            let a = if i < at {
                i
            } else {
                i + 1
            };
            let b = if j < at {
                j
            } else {
                j + 1
            };
            assert(others[i] == reordered[a] && others[j] == reordered[b]);
        }
        assert forall|i: int, j: int| 0 <= i < j < front.len() implies (#[trigger] front[i]).0 != (
        #[trigger] front[j]).0 by {
            assert(updates[i].0 != updates[j].0);
        }
        assert forall|i: int| 0 <= i < front.len() implies others.contains(#[trigger] front[i]) by {
            assert(reordered.contains(updates[i]));
            let k = choose|k: int| 0 <= k < reordered.len() && reordered[k] == updates[i];
            assert(updates[i].0 != updates[last].0);
            if k < at {
                assert(others[k] == front[i]);
            } else {
                assert(others[k - 1] == front[i]);
            }
        }
        law_order_of_updates_does_not_matter(filter, progress, front, others);
        lemma_last_of_all(filter, progress, reordered, at);
    } else {
        assert(reordered =~= updates);
    }
}

} // verus!
