//! Which waiting requests make up the next batches.

use crate::cache;
use crate::cache::Counts;
use crate::counts::EntryFingerprint;
use crate::ordered_map;
use crate::queue::{ActiveRequests, PendingKey, Requests, MAX_BATCH_REQUESTS};
use vstd::prelude::*;

verus! {

/// Waiting requests in the order of their worktrees and paths.
pub type Waiting = Seq<((usize, Seq<char>), EntryFingerprint)>;

/// The cache still waits for what is asked for.
pub open spec fn is_wanted(
    known: Map<usize, Counts>,
    key: (usize, Seq<char>),
    fingerprint: EntryFingerprint,
) -> bool {
    known.contains_key(key.0) && cache::is_awaited(known[key.0], key.1, fingerprint)
}

/// How many of the waiting requests go into a batch of the worktree `id`, or are
/// dropped with it because they are no longer wanted: those at the front, until
/// there is no more room in the batch or another worktree's turn.
pub open spec fn taken(
    waiting: Waiting,
    known: Map<usize, Counts>,
    id: usize,
    room: nat,
) -> nat
    decreases waiting.len(),
{
    if room == 0 || waiting.len() == 0 || waiting[0].0.0 != id {
        0
    } else {
        let left = if is_wanted(known, waiting[0].0, waiting[0].1) {
            (room - 1) as nat
        } else {
            room
        };
        1 + taken(waiting.skip(1), known, id, left)
    }
}

/// Those of the requests that are still wanted, by path.
pub open spec fn wanted_among(waiting: Waiting, known: Map<usize, Counts>) -> Requests
    decreases waiting.len(),
{
    if waiting.len() == 0 {
        Map::empty()
    } else {
        let front = wanted_among(waiting.drop_last(), known);
        if is_wanted(known, waiting.last().0, waiting.last().1) {
            front.insert(waiting.last().0.1, waiting.last().1)
        } else {
            front
        }
    }
}

pub proof fn lemma_taken(waiting: Waiting, known: Map<usize, Counts>, id: usize, room: nat)
    ensures
        taken(waiting, known, id, room) <= waiting.len(),
        room > 0 && waiting.len() > 0 && waiting[0].0.0 == id ==> taken(waiting, known, id, room)
            > 0,
        forall|i: int|
            0 <= i < taken(waiting, known, id, room) ==> (#[trigger] waiting[i]).0.0 == id,
    decreases waiting.len(),
{
    if room == 0 || waiting.len() == 0 || waiting[0].0.0 != id {
    } else {
        let left = if is_wanted(known, waiting[0].0, waiting[0].1) {
            (room - 1) as nat
        } else {
            room
        };
        let rest = waiting.skip(1);
        lemma_taken(rest, known, id, left);
        assert forall|i: int| 0 <= i < taken(waiting, known, id, room) implies (
        #[trigger] waiting[i]).0.0 == id by {
            if i > 0 {
                assert(rest[i - 1] == waiting[i]);
            }
        }
    }
}

/// How many requests at the front go into the next batch or are dropped.
pub open spec fn first_taken(waiting: Waiting, known: Map<usize, Counts>) -> nat {
    taken(waiting, known, waiting[0].0.0, MAX_BATCH_REQUESTS as nat)
}

/// What goes into the next batch.
pub open spec fn first_batch(waiting: Waiting, known: Map<usize, Counts>) -> Requests {
    wanted_among(waiting.take(first_taken(waiting, known) as int), known)
}

/// The next batches, at most `slots` of them: the worktree and the requests of
/// each.
pub open spec fn planned(
    waiting: Waiting,
    known: Map<usize, Counts>,
    slots: nat,
) -> Seq<(usize, Requests)>
    decreases waiting.len(),
{
    if slots == 0 || waiting.len() == 0 {
        Seq::empty()
    } else {
        proof {
            lemma_taken(waiting, known, waiting[0].0.0, MAX_BATCH_REQUESTS as nat);
        }
        let rest = waiting.skip(first_taken(waiting, known) as int);
        let batch = first_batch(waiting, known);
        if batch == Map::<Seq<char>, EntryFingerprint>::empty() {
            planned(rest, known, slots)
        } else {
            seq![(waiting[0].0.0, batch)] + planned(rest, known, (slots - 1) as nat)
        }
    }
}

/// How many of the waiting requests the next batches use up.
pub open spec fn consumed(waiting: Waiting, known: Map<usize, Counts>, slots: nat) -> nat
    decreases waiting.len(),
{
    if slots == 0 || waiting.len() == 0 {
        0
    } else {
        proof {
            lemma_taken(waiting, known, waiting[0].0.0, MAX_BATCH_REQUESTS as nat);
        }
        let count = first_taken(waiting, known);
        let rest = waiting.skip(count as int);
        if first_batch(waiting, known) == Map::<Seq<char>, EntryFingerprint>::empty() {
            count + consumed(rest, known, slots)
        } else {
            count + consumed(rest, known, (slots - 1) as nat)
        }
    }
}

/// The batches that are being counted once those of `made` have been started,
/// numbered from `next` on.
pub open spec fn started(
    active: ActiveRequests,
    next: usize,
    made: Seq<(usize, Requests)>,
) -> ActiveRequests
    decreases made.len(),
{
    if made.len() == 0 {
        active
    } else {
        started(active, next, made.drop_last()).insert(
            (next + made.len() - 1) as usize,
            made.last(),
        )
    }
}

/// The wanted requests are among the given ones, and none is missing.
pub proof fn lemma_wanted_among(waiting: Waiting, known: Map<usize, Counts>, id: usize)
    requires
        ordered_map::strictly_ordered::<PendingKey, EntryFingerprint>(waiting),
        forall|i: int| 0 <= i < waiting.len() ==> (#[trigger] waiting[i]).0.0 == id,
    ensures
        wanted_among(waiting, known).dom().finite(),
        wanted_among(waiting, known).len() <= waiting.len(),
        forall|path: Seq<char>| #[trigger]
            wanted_among(waiting, known).contains_key(path) ==> exists|i: int|
                0 <= i < waiting.len() && (#[trigger] waiting[i]).0.1 == path && waiting[i].1
                    == wanted_among(waiting, known)[path] && is_wanted(
                    known,
                    waiting[i].0,
                    waiting[i].1,
                ),
        forall|i: int|
            0 <= i < waiting.len() && is_wanted(known, (#[trigger] waiting[i]).0, waiting[i].1)
                ==> wanted_among(waiting, known).contains_key(waiting[i].0.1) && wanted_among(
                waiting,
                known,
            )[waiting[i].0.1] == waiting[i].1,
    decreases waiting.len(),
{
    if waiting.len() > 0 {
        let front = waiting.drop_last();
        let last = waiting.len() - 1;
        assert forall|i: int| 0 <= i < front.len() implies (#[trigger] front[i]).0.0 == id by {
            assert(waiting[i] == front[i]);
        }
        assert(ordered_map::strictly_ordered::<PendingKey, EntryFingerprint>(front));
        lemma_wanted_among(front, known, id);
        let before = wanted_among(front, known);
        let after = wanted_among(waiting, known);
        assert forall|path: Seq<char>| #[trigger] after.contains_key(path) implies exists|i: int|
            0 <= i < waiting.len() && (#[trigger] waiting[i]).0.1 == path && waiting[i].1
                == after[path] && is_wanted(known, waiting[i].0, waiting[i].1) by {
            if is_wanted(known, waiting[last].0, waiting[last].1) && path == waiting[last].0.1 {
            } else {
                assert(before.contains_key(path));
                let i = choose|i: int|
                    0 <= i < front.len() && (#[trigger] front[i]).0.1 == path && front[i].1
                        == before[path] && is_wanted(known, front[i].0, front[i].1);
                assert(waiting[i] == front[i]);
            }
        }
        assert forall|i: int|
            0 <= i < waiting.len() && is_wanted(
                known,
                (#[trigger] waiting[i]).0,
                waiting[i].1,
            ) implies after.contains_key(waiting[i].0.1) && after[waiting[i].0.1]
            == waiting[i].1 by {
            if i < last {
                assert(front[i] == waiting[i]);
                lemma_distinct_paths(waiting, id, i, last);
            }
        }
    }
}

/// Requests of one worktree stand at distinct paths.
pub proof fn lemma_distinct_paths(waiting: Waiting, id: usize, i: int, j: int)
    requires
        ordered_map::strictly_ordered::<PendingKey, EntryFingerprint>(waiting),
        0 <= i < j < waiting.len(),
        waiting[i].0.0 == id,
        waiting[j].0.0 == id,
    ensures
        waiting[i].0.1 != waiting[j].0.1,
{
    ordered_map::lemma_map_of::<PendingKey, EntryFingerprint>(waiting);
    if waiting[i].0.1 == waiting[j].0.1 {
        assert(waiting[i].0 == waiting[j].0);
    }
}

} // verus!
