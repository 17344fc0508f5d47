//! Keeps the counts of worktrees up to date: what has changed is asked for in
//! batches, and their results are taken in as they come.

use crate::cache;
use crate::cache::{Counts, LineCountCache};
use crate::counts;
use crate::counts::{EntryFingerprint, LineCountEntry, LineCountRequest, ProjectLineCount};
use crate::distinct;
use crate::filter::LineCountFilter;
use crate::order::Key;
use crate::ordered_map;
use crate::ordered_map::OrderedMap;
use crate::progress;
use crate::progress::Progress;
use crate::queue::{
    ActiveBatch, ActiveBatches, ActiveRequests, PendingKey, PendingRequests, Requests,
    MAX_ACTIVE_BATCHES, MAX_BATCH_REQUESTS,
};
use crate::rel_path;
use crate::rel_path::RelPath;
use crate::schedule;
use crate::schedule::Waiting;
use crate::update::LineCountUpdate;
use crate::worker_laws;
use crate::worktree;
use crate::worktree::{Entry, Snapshot, WorktreeId};
use vstd::prelude::*;

verus! {

/// A batch to be counted.
pub struct LineCountBatch {
    pub id: usize,
    pub worktree_id: WorktreeId,
    pub paths: Vec<RelPath>,
}

/// `batch` asks for what is planned, under the number `id`.
pub open spec fn carries(batch: LineCountBatch, id: int, plan: (usize, Requests)) -> bool {
    &&& batch.id == id
    &&& batch.worktree_id@ == plan.0
    &&& rel_path::texts_of(batch.paths@).no_duplicates()
    &&& rel_path::texts_of(batch.paths@).to_set() == plan.1.dom()
}

/// Results, taken by value.
pub open spec fn results_in(results: Option<Vec<ProjectLineCount>>) -> Option<
    Seq<ProjectLineCount>,
> {
    match results {
        Some(results) => Some(results@),
        None => None,
    }
}

/// Counts in the making: a cache, the requests that wait, and the batches that
/// are being counted.
pub struct LineCountWorker {
    pub cache: LineCountCache,
    pub pending: OrderedMap<PendingKey, EntryFingerprint>,
    pub active: ActiveBatches,
}

impl LineCountWorker {
    /// The requests that wait, in order.
    pub open spec fn waiting(&self) -> Waiting {
        self.pending.listing()
    }

    /// The requests that wait.
    pub open spec fn pending(&self) -> PendingRequests {
        ordered_map::map_of(self.waiting())
    }

    /// The batches that are being counted.
    pub open spec fn active(&self) -> ActiveRequests {
        self.active@
    }

    /// The number of the next batch.
    pub open spec fn next(&self) -> usize {
        self.active.next()
    }

    pub fn new(filter: LineCountFilter) -> (worker: LineCountWorker)
        ensures
            worker.cache@ == Map::<usize, Counts>::empty(),
            worker.cache.filter() == filter,
            worker.waiting() == Seq::<((usize, Seq<char>), EntryFingerprint)>::empty(),
            worker.active() == Map::<usize, (usize, Requests)>::empty(),
            worker.next() == 0,
            worker_laws::nothing_is_forgotten(worker.progress()),
    {
        LineCountWorker {
            cache: LineCountCache::new(filter),
            pending: OrderedMap::new(),
            active: ActiveBatches::new(),
        }
    }

    /// The number of the next batch.
    pub fn next_batch(&self) -> (next: usize)
        ensures
            next == self.next(),
    {
        self.active.next_batch()
    }

    /// Makes up batches from the requests that wait, as long as there is a slot
    /// for them. A request that is no longer wanted is dropped when its turn
    /// comes.
    pub fn batches(&mut self) -> (batches: Vec<LineCountBatch>)
        requires
            old(self).next() + (MAX_ACTIVE_BATCHES - old(self).active().len()) <= usize::MAX,
        ensures
            final(self).cache == old(self).cache,
            old(self).active().len() <= MAX_ACTIVE_BATCHES,
            ({
                let slots = (MAX_ACTIVE_BATCHES - old(self).active().len()) as nat;
                let made = schedule::planned(old(self).waiting(), old(self).cache@, slots);
                &&& final(self).waiting() == old(self).waiting().skip(
                    schedule::consumed(old(self).waiting(), old(self).cache@, slots) as int,
                )
                &&& final(self).active() == schedule::started(
                    old(self).active(),
                    old(self).next(),
                    made,
                )
                &&& final(self).next() == old(self).next() + made.len()
                &&& batches@.len() == made.len()
                &&& forall|k: int|
                    0 <= k < made.len() ==> carries(
                        #[trigger] batches@[k],
                        old(self).next() + k,
                        made[k],
                    )
            }),
            final(self).active().len() == old(self).active().len() + batches@.len(),
            final(self).active().len() <= MAX_ACTIVE_BATCHES,
            final(self).active().len() == MAX_ACTIVE_BATCHES || final(self).waiting().len() == 0,
            old(self).active().len() == MAX_ACTIVE_BATCHES
                ==> final(self).waiting() == old(self).waiting(),
            forall|id: usize| #[trigger]
                old(self).active().contains_key(id) ==> id < old(self).next()
                    && worker_laws::has_number(final(self).active(), id, old(self).active()[id]),
            forall|k: int, j: int, i: int|
                0 <= k < batches@.len() && 0 <= j < batches@[k].paths@.len()
                    && 0 <= i < final(self).waiting().len() ==> PendingKey::before(
                    (batches@[k].worktree_id@, (#[trigger] batches@[k].paths@[j])@),
                    (#[trigger] final(self).waiting()[i]).0,
                ),
            worker_laws::nothing_is_forgotten(old(self).progress())
                ==> worker_laws::nothing_is_forgotten(final(self).progress()),
    {
        let ghost waiting = self.waiting();
        let ghost known = self.cache@;
        let ghost active = self.active@;
        let ghost next = self.active.next();
        let mut batches: Vec<LineCountBatch> = Vec::new();
        let mut at: usize = 0;
        let len: usize = self.pending.len();
        let mut running: usize = self.active.len();
        let ghost slots = (MAX_ACTIVE_BATCHES - active.len()) as nat;
        let ghost mut made: Seq<(usize, Requests)> = Seq::empty();
        proof {
            assert(waiting.skip(0) =~= waiting);
            assert(made + schedule::planned(waiting, known, slots) =~= schedule::planned(
                waiting,
                known,
                slots,
            ));
        }
        while running < MAX_ACTIVE_BATCHES && at < len
            invariant
                waiting == self.pending.listing(),
                known == self.cache@,
                self.cache == old(self).cache,
                len == waiting.len(),
                at <= len,
                ordered_map::strictly_ordered::<PendingKey, EntryFingerprint>(waiting),
                running == self.active@.len(),
                running <= MAX_ACTIVE_BATCHES,
                slots == MAX_ACTIVE_BATCHES - active.len(),
                running == active.len() + made.len(),
                next + slots <= usize::MAX,
                self.active.next() == next + made.len(),
                self.active@ == schedule::started(active, next, made),
                batches@.len() == made.len(),
                forall|k: int|
                    0 <= k < made.len() ==> carries(#[trigger] batches@[k], next + k, made[k]),
                made + schedule::planned(
                    waiting.skip(at as int),
                    known,
                    (MAX_ACTIVE_BATCHES - running) as nat,
                ) == schedule::planned(waiting, known, slots),
                at + schedule::consumed(
                    waiting.skip(at as int),
                    known,
                    (MAX_ACTIVE_BATCHES - running) as nat,
                ) == schedule::consumed(waiting, known, slots),
            decreases len - at,
        {
            let ghost start = at as int;
            let ghost rest = waiting.skip(start);
            let worktree_id = self.pending.key_at(at).worktree_id;
            let (requests, end) = self.fill_batch(worktree_id, at);
            proof {
                assert(rest[0] == waiting[start]);
                schedule::lemma_taken(rest, known, worktree_id@, MAX_BATCH_REQUESTS as nat);
                assert(waiting.subrange(start, end as int) =~= rest.take(end - start));
                assert(rest.skip(end - start) =~= waiting.skip(end as int));
                assert(requests@ == schedule::first_batch(rest, known));
            }
            at = end;
            if requests.len() == 0 {
                proof {
                    requests@.dom().lemma_len0_is_empty();
                    assert(requests@ =~= Map::<Seq<char>, EntryFingerprint>::empty());
                }
            } else {
                proof {
                    if requests@ == Map::<Seq<char>, EntryFingerprint>::empty() {
                        assert(requests@.len() == 0);
                    }
                }
                let paths = paths_in(&requests);
                let ghost plan = (worktree_id@, requests@);
                let ghost sofar = made;
                let id: usize = self.active.start(ActiveBatch { worktree_id, requests });
                running = running + 1;
                batches.push(LineCountBatch { id, worktree_id, paths });
                proof {
                    made = sofar.push(plan);
                    assert(made.drop_last() =~= sofar);
                    let later = schedule::planned(
                        waiting.skip(at as int),
                        known,
                        (MAX_ACTIVE_BATCHES - running) as nat,
                    );
                    assert(sofar + (seq![plan] + later) =~= made + later);
                    assert(carries(batches@[sofar.len() as int], next + sofar.len(), plan));
                    assert forall|k: int| 0 <= k < made.len() implies carries(
                        #[trigger] batches@[k],
                        next + k,
                        made[k],
                    ) by {
                        if k < sofar.len() {
                            assert(made[k] == sofar[k]);
                        }
                    }
                }
            }
        }
        proof {
            let later = schedule::planned(
                waiting.skip(at as int),
                known,
                (MAX_ACTIVE_BATCHES - running) as nat,
            );
            assert(later =~= Seq::<(usize, Requests)>::empty());
            assert(made + later =~= made);
        }
        self.pending.remove_range(0, at);
        assert(self.pending.listing() =~= waiting.skip(at as int));
        proof {
            worker_laws::law_batches_use_the_free_slots(known, waiting, active, next);
            worker_laws::law_batches_are_made_up_fairly(waiting, known, slots);
            assert forall|k: int, j: int, i: int|
                0 <= k < batches@.len() && 0 <= j < batches@[k].paths@.len() && 0 <= i
                    < self.waiting().len() implies PendingKey::before(
                (batches@[k].worktree_id@, (#[trigger] batches@[k].paths@[j])@),
                (#[trigger] self.waiting()[i]).0,
            ) by {
                let texts = rel_path::texts_of(batches@[k].paths@);
                assert(carries(batches@[k], next + k, made[k]));
                assert(texts[j] == batches@[k].paths@[j]@);
                assert(texts.to_set().contains(texts[j]));
                assert(made[k].1.contains_key(texts[j]));
                assert(self.waiting()[i] == waiting[i + at]);
            }
            if worker_laws::nothing_is_forgotten(old(self).progress()) {
                worker_laws::law_batches_forget_nothing(known, waiting, active, next, slots);
            }
        }
        batches
    }

    /// The wanted requests from position `from` on, as many as go into one batch
    /// of `worktree_id`, and the position after the last request looked at.
    fn fill_batch(&self, worktree_id: WorktreeId, from: usize) -> (filled: (
        OrderedMap<RelPath, EntryFingerprint>,
        usize,
    ))
        requires
            from <= self.waiting().len(),
        ensures
            from <= filled.1 <= self.waiting().len(),
            filled.1 - from == schedule::taken(
                self.waiting().skip(from as int),
                self.cache@,
                worktree_id@,
                MAX_BATCH_REQUESTS as nat,
            ),
            filled.0@ == schedule::wanted_among(
                self.waiting().subrange(from as int, filled.1 as int),
                self.cache@,
            ),
    {
        let ghost waiting = self.waiting();
        let ghost known = self.cache@;
        let ghost goal = schedule::taken(
            waiting.skip(from as int),
            known,
            worktree_id@,
            MAX_BATCH_REQUESTS as nat,
        );
        let len: usize = self.pending.len();
        let mut requests: OrderedMap<RelPath, EntryFingerprint> = OrderedMap::new();
        let mut count: usize = 0;
        let mut at: usize = from;
        assert(waiting.subrange(from as int, from as int) =~= Seq::<
            ((usize, Seq<char>), EntryFingerprint),
        >::empty());
        while count < MAX_BATCH_REQUESTS && at < len && self.pending.key_at(
            at,
        ).worktree_id.same_as(&worktree_id)
            invariant
                waiting == self.pending.listing(),
                known == self.cache@,
                len == waiting.len(),
                from <= at <= len,
                ordered_map::strictly_ordered::<PendingKey, EntryFingerprint>(waiting),
                forall|i: int| from <= i < at ==> (#[trigger] waiting[i]).0.0 == worktree_id@,
                count <= MAX_BATCH_REQUESTS,
                requests@ == schedule::wanted_among(
                    waiting.subrange(from as int, at as int),
                    known,
                ),
                (at - from) + schedule::taken(
                    waiting.skip(at as int),
                    known,
                    worktree_id@,
                    (MAX_BATCH_REQUESTS - count) as nat,
                ) == goal,
            ensures
                from <= at <= len,
                requests@ == schedule::wanted_among(
                    waiting.subrange(from as int, at as int),
                    known,
                ),
                at - from == goal,
            decreases len - at,
        {
            let key = self.pending.key_at(at);
            let fingerprint = *self.pending.value_at(at);
            proof {
                assert(waiting.skip(at as int)[0] == waiting[at as int]);
                assert(waiting.skip(at as int).skip(1) =~= waiting.skip(at + 1));
                assert(waiting.subrange(from as int, at + 1).drop_last() =~= waiting.subrange(
                    from as int,
                    at as int,
                ));
                assert(waiting.subrange(from as int, at + 1).last() == waiting[at as int]);
            }
            if self.cache.awaits(key.worktree_id, &key.path, fingerprint) {
                requests.insert(key.path.clone(), fingerprint);
                count = count + 1;
            }
            at = at + 1;
        }
        (requests, at)
    }
}

impl LineCountWorker {
    /// What is known, and what is waited for.
    pub open spec fn progress(&self) -> Progress {
        Progress { known: self.cache@, pending: self.pending(), active: self.active() }
    }

    /// Puts requests to the ones that wait.
    fn enqueue(&mut self, worktree_id: WorktreeId, requests: Vec<LineCountRequest>)
        ensures
            final(self).cache == old(self).cache,
            final(self).active == old(self).active,
            final(self).pending() == progress::queued(
                old(self).pending(),
                worktree_id@,
                cache::asked(requests@),
            ),
    {
        let ghost asked = cache::asked(requests@);
        assert(asked.take(0) =~= Seq::<(Seq<char>, EntryFingerprint)>::empty());
        for i in 0..requests.len()
            invariant
                asked == cache::asked(requests@),
                self.cache == old(self).cache,
                self.active == old(self).active,
                self.pending@ == progress::queued(
                    old(self).pending(),
                    worktree_id@,
                    asked.take(i as int),
                ),
        {
            assert(asked.take(i + 1).drop_last() =~= asked.take(i as int));
            let request = &requests[i];
            self.pending.insert(
                PendingKey { worktree_id, path: request.path.clone() },
                request.fingerprint,
            );
        }
        assert(asked.take(asked.len() as int) =~= asked);
    }

    /// Forgets a worktree and gives back the numbers of its batches.
    fn forget(&mut self, worktree_id: WorktreeId) -> (cancelled: Vec<usize>)
        ensures
            final(self).cache.filter() == old(self).cache.filter(),
            final(self).progress() == progress::after_removal(
                old(self).progress(),
                worktree_id@,
            ),
            final(self).next() == old(self).next(),
            cancelled@.no_duplicates(),
            cancelled@.to_set() == old(self).active().dom().difference(final(self).active().dom()),
    {
        self.cache.remove_worktree(worktree_id);
        let elsewhere = |key: &PendingKey, fingerprint: &EntryFingerprint| -> (elsewhere: bool)
            ensures
                elsewhere == (key.worktree_id@ != worktree_id@),
        {
            !key.worktree_id.same_as(&worktree_id)
        };
        self.pending.retain(
            elsewhere,
            Ghost(
                |key: (usize, Seq<char>), fingerprint: EntryFingerprint| key.0 != worktree_id@,
            ),
        );
        let cancelled = self.active.cancel(worktree_id);
        assert(self.progress() =~= progress::after_removal(old(self).progress(), worktree_id@));
        cancelled
    }

    /// Takes the entries of the snapshot for all that there is.
    fn reset(&mut self, worktree_id: WorktreeId, snapshot: &Snapshot)
        ensures
            final(self).cache.filter() == old(self).cache.filter(),
            final(self).progress() == progress::after_reset(
                old(self).cache.filter(),
                old(self).progress(),
                worktree_id@,
                snapshot.entries_by_path(),
            ),
            final(self).next() == old(self).next(),
    {
        let ghost filter = self.cache.filter();
        let ghost id = worktree_id@;
        let ghost before = self.progress();
        let ghost known = cache::counts_in(before.known, id);
        let ghost by_path = snapshot.entries_by_path();
        let entries = snapshot.entries();
        proof {
            let listing = snapshot.listing();
            ordered_map::lemma_map_of::<RelPath, Entry>(listing);
            assert forall|i: int, j: int| 0 <= i < j < entries@.len() implies (
            #[trigger] entries@[i]).path@ != (#[trigger] entries@[j]).path@ by {
                assert(listing[i].0 == entries@[i].path@ && listing[j].0 == entries@[j].path@);
            }
        }
        let requests = self.cache.reset_worktree(worktree_id, entries.as_slice());
        let stays = |key: &PendingKey, fingerprint: &EntryFingerprint| -> (stays: bool)
            ensures
                stays == (key.worktree_id@ != worktree_id@ || snapshot.entries_by_path().contains_key(
                    key.path@,
                )),
        {
            !key.worktree_id.same_as(&worktree_id) || snapshot.entry_for_path(&key.path).is_some()
        };
        self.pending.retain(
            stays,
            Ghost(
                |key: (usize, Seq<char>), fingerprint: EntryFingerprint|
                    key.0 != id || by_path.contains_key(key.1),
            ),
        );
        let ghost left = self.pending();
        let ghost asked = cache::asked(requests@);
        self.enqueue(worktree_id, requests);
        proof {
            let listing = snapshot.listing();
            ordered_map::lemma_map_of::<RelPath, Entry>(listing);
            assert forall|path: Seq<char>| #[trigger] by_path.contains_key(path) implies exists|
                i: int,
            |
                0 <= i < entries@.len() && (#[trigger] entries@[i]).path@ == path && *entries@[i]
                    == by_path[path] by {
                let i = choose|i: int| 0 <= i < listing.len() && (#[trigger] listing[i]).0 == path;
                assert(entries@[i].path@ == path);
            }
            assert forall|i: int| 0 <= i < entries@.len() implies by_path.contains_key(
                (#[trigger] entries@[i]).path@,
            ) && by_path[entries@[i].path@] == *entries@[i] by {
                assert(listing[i].0 == entries@[i].path@);
            }
            lemma_reset_by_path(filter, known, entries@, by_path);
            progress::lemma_queued(left, id, asked);
            let after = progress::after_reset(filter, before, id, by_path);
            assert forall|path: Seq<char>| progress::asks_about(asked, path)
                <==> progress::reset_asks(filter, known, by_path, path) by {
            }
            assert(self.progress().pending =~= after.pending);
            assert(self.progress() =~= after);
        }
    }
}

/// The keys at the first `len` positions of a listing.
spec fn first_keys(listing: Seq<(Seq<char>, ())>, len: int) -> Set<Seq<char>> {
    Set::new(
        |path: Seq<char>| exists|i: int| 0 <= i < len && (#[trigger] listing[i]).0 == path,
    )
}

impl LineCountWorker {
    /// Forgets what is gone of `paths`, together with all below it, and gives
    /// back the entries that are still there, in the order of their paths.
    fn drop_gone<'a>(
        &mut self,
        worktree_id: WorktreeId,
        snapshot: &'a Snapshot,
        paths: &OrderedMap<RelPath, ()>,
    ) -> (present: Vec<&'a Entry>)
        ensures
            final(self).cache.filter() == old(self).cache.filter(),
            final(self).cache@ == progress::known_without_gone(
                old(self).cache@,
                worktree_id@,
                snapshot.entries_by_path(),
                paths@.dom(),
            ),
            final(self).pending() == ordered_map::restricted(
                old(self).pending(),
                |key: (usize, Seq<char>), fingerprint: EntryFingerprint|
                    !(key.0 == worktree_id@ && progress::is_gone(
                        snapshot.entries_by_path(),
                        paths@.dom(),
                        key.1,
                    )),
            ),
            final(self).active == old(self).active,
            distinct::distinct_paths(present@),
            forall|i: int|
                0 <= i < present@.len() ==> progress::is_present(
                    snapshot.entries_by_path(),
                    paths@.dom(),
                    (#[trigger] present@[i]).path@,
                ) && snapshot.entries_by_path()[present@[i].path@] == *present@[i],
            forall|path: Seq<char>| #[trigger]
                progress::is_present(snapshot.entries_by_path(), paths@.dom(), path)
                    ==> distinct::has_path(present@, path),
    {
        let ghost id = worktree_id@;
        let ghost entries = snapshot.entries_by_path();
        let ghost listing = paths.listing();
        let ghost known = self.cache@;
        let ghost pending = self.pending();
        let mut present: Vec<&'a Entry> = Vec::new();
        let ghost mut origin: Seq<int> = Seq::empty();
        let len: usize = paths.len();
        proof {
            ordered_map::lemma_map_of::<RelPath, ()>(listing);
            let none = first_keys(listing, 0);
            assert(progress::known_without_gone(known, id, entries, none) =~= known) by {
                if known.contains_key(id) {
                    assert(progress::counts_without_gone(known[id], entries, none) =~= known[id]);
                }
            }
            assert(left_pending(pending, id, entries, none) =~= pending);
        }
        for i in 0..len
            invariant
                id == worktree_id@,
                entries == snapshot.entries_by_path(),
                listing == paths.listing(),
                len == listing.len(),
                ordered_map::strictly_ordered::<RelPath, ()>(listing),
                self.cache.filter() == old(self).cache.filter(),
                self.active == old(self).active,
                self.cache@ == progress::known_without_gone(
                    known,
                    id,
                    entries,
                    first_keys(listing, i as int),
                ),
                self.pending() == left_pending(
                    pending,
                    id,
                    entries,
                    first_keys(listing, i as int),
                ),
                origin.len() == present@.len(),
                forall|a: int|
                    0 <= a < origin.len() ==> 0 <= #[trigger] origin[a] < i && present@[a].path@
                        == listing[origin[a]].0 && entries.contains_key(present@[a].path@)
                        && entries[present@[a].path@] == *present@[a],
                forall|a: int, b: int|
                    0 <= a < b < origin.len() ==> #[trigger] origin[a] < #[trigger] origin[b],
                forall|k: int|
                    0 <= k < i && entries.contains_key((#[trigger] listing[k]).0)
                        ==> origin.contains(k),
        {
            let path = paths.key_at(i);
            let ghost seen = first_keys(listing, i as int);
            let ghost more = first_keys(listing, i + 1);
            assert(more =~= seen.insert(path@)) by {
                assert(listing[i as int].0 == path@);
            }
            match snapshot.entry_for_path(path) {
                Some(entry) => {
                    let ghost before = origin;
                    let ghost found = present@;
                    present.push(entry);
                    proof {
                        origin = before.push(i as int);
                        lemma_still_there(known, pending, id, entries, seen, path@);
                        assert(origin[before.len() as int] == i);
                        assert forall|a: int| 0 <= a < origin.len() implies 0
                            <= #[trigger] origin[a] < i + 1 && present@[a].path@
                            == listing[origin[a]].0 && entries.contains_key(present@[a].path@)
                            && entries[present@[a].path@] == *present@[a] by {
                            if a < before.len() {
                                assert(origin[a] == before[a]);
                                assert(present@[a] == found[a]);
                            } else {
                                assert(present@[a] == entry);
                            }
                        }
                        assert forall|k: int|
                            0 <= k < i + 1 && entries.contains_key(
                                (#[trigger] listing[k]).0,
                            ) implies origin.contains(k) by {
                            if k < i {
                                let a = choose|a: int| 0 <= a < before.len() && before[a] == k;
                                assert(origin[a] == k);
                            }
                        }
                    }
                },
                None => {
                    self.cache.remove_subtree(worktree_id, path);
                    self.pending.remove(&PendingKey { worktree_id, path: path.clone() });
                    proof {
                        lemma_one_gone(known, pending, id, entries, seen, path@);
                    }
                },
            }
        }
        proof {
            assert(first_keys(listing, len as int) =~= paths@.dom());
            ordered_map::lemma_map_of::<RelPath, ()>(listing);
            assert forall|a: int, b: int| 0 <= a < b < present@.len() implies (
            #[trigger] present@[a]).path@ != (#[trigger] present@[b]).path@ by {
                assert(origin[a] < origin[b]);
                assert(listing[origin[a]].0 == present@[a].path@);
                assert(listing[origin[b]].0 == present@[b].path@);
            }
            assert forall|a: int| 0 <= a < present@.len() implies progress::is_present(
                entries,
                paths@.dom(),
                (#[trigger] present@[a]).path@,
            ) && entries[present@[a].path@] == *present@[a] by {
                assert(listing[origin[a]].0 == present@[a].path@);
            }
            assert forall|path: Seq<char>| #[trigger]
                progress::is_present(entries, paths@.dom(), path) implies distinct::has_path(
                present@,
                path,
            ) by {
                assert(paths@.contains_key(path));
                let k = choose|k: int| 0 <= k < listing.len() && (#[trigger] listing[k]).0 == path;
                assert(origin.contains(k));
                let a = choose|a: int| 0 <= a < origin.len() && origin[a] == k;
                assert(present@[a].path@ == path);
            }
        }
        present
    }

    /// Takes note of what has changed at `paths`.
    fn apply_changes(
        &mut self,
        worktree_id: WorktreeId,
        snapshot: &Snapshot,
        paths: &OrderedMap<RelPath, ()>,
    )
        ensures
            final(self).cache.filter() == old(self).cache.filter(),
            final(self).progress() == progress::after_changes(
                old(self).cache.filter(),
                old(self).progress(),
                worktree_id@,
                snapshot.entries_by_path(),
                paths@.dom(),
            ),
            final(self).next() == old(self).next(),
    {
        let ghost filter = self.cache.filter();
        let ghost id = worktree_id@;
        let ghost entries = snapshot.entries_by_path();
        let ghost changed = paths@.dom();
        let ghost before = self.progress();
        let present = self.drop_gone(worktree_id, snapshot, paths);
        let ghost left = self.cache@;
        let ghost pending = self.pending();
        let ghost known = cache::counts_in(left, id);
        let requests = self.cache.mark_pending_many(worktree_id, present.as_slice());
        let ghost asked = cache::asked(requests@);
        self.enqueue(worktree_id, requests);
        proof {
            lemma_change_by_path(filter, known, present@, entries, changed);
            progress::lemma_queued(pending, id, asked);
            let after = progress::after_changes(filter, before, id, entries, changed);
            if present@.len() == 0 {
                assert forall|path: Seq<char>| !(#[trigger] progress::is_present(
                    entries,
                    changed,
                    path,
                )) by {
                    if progress::is_present(entries, changed, path) {
                        assert(distinct::has_path(present@, path));
                    }
                }
            } else {
                assert(progress::is_present(entries, changed, present@[0].path@));
            }
            assert(self.cache@ =~= after.known);
            assert(self.progress().pending =~= after.pending);
            assert(self.progress() =~= after);
        }
    }
}

impl LineCountWorker {
    /// Brings worktrees up to date, and gives back the numbers of the batches
    /// that are no longer needed. A worktree without an update is gone.
    pub fn update(&mut self, updates: OrderedMap<WorktreeId, Option<LineCountUpdate>>) -> (cancelled:
        Vec<usize>)
        ensures
            final(self).cache.filter() == old(self).cache.filter(),
            final(self).progress() == progress::after_updates(
                old(self).cache.filter(),
                old(self).progress(),
                updates.listing(),
            ),
            final(self).next() == old(self).next(),
            cancelled@.no_duplicates(),
            cancelled@.to_set() == old(self).active().dom().difference(final(self).active().dom()),
            worker_laws::nothing_is_forgotten(old(self).progress())
                ==> worker_laws::nothing_is_forgotten(final(self).progress()),
    {
        let ghost filter = self.cache.filter();
        let ghost before = self.progress();
        let ghost listing = updates.listing();
        let mut cancelled: Vec<usize> = Vec::new();
        let len: usize = updates.len();
        proof {
            assert(listing.take(0) =~= Seq::<(usize, Option<LineCountUpdate>)>::empty());
            assert(cancelled@.to_set() =~= Set::<usize>::empty());
            assert(before.active.dom().difference(before.active.dom()) =~= Set::<usize>::empty());
        }
        for i in 0..len
            invariant
                listing == updates.listing(),
                len == listing.len(),
                self.cache.filter() == filter,
                self.progress() == progress::after_updates(filter, before, listing.take(i as int)),
                self.next() == old(self).next(),
                cancelled@.no_duplicates(),
                cancelled@.to_set() == before.active.dom().difference(self.active().dom()),
                self.active().dom().subset_of(before.active.dom()),
                forall|k: int|
                    0 <= k < i ==> ((#[trigger] listing[k]).1 matches Some(update)
                        ==> worktree::at_their_paths(update.snapshot().entries_by_path())),
        {
            let ghost active = self.active();
            assert(listing.take(i + 1).drop_last() =~= listing.take(i as int));
            let worktree_id = *updates.key_at(i);
            match updates.value_at(i) {
                None => {
                    let mut gone = self.forget(worktree_id);
                    proof {
                        let sofar = cancelled@;
                        let both = sofar + gone@;
                        assert forall|a: int, b: int|
                            0 <= a < both.len() && 0 <= b < both.len() && a != b implies both[a]
                            != both[b] by {
                            if a < sofar.len() && b >= sofar.len() {
                                assert(sofar.to_set().contains(sofar[a]));
                                assert(gone@.to_set().contains(gone@[b - sofar.len()]));
                            }
                            if b < sofar.len() && a >= sofar.len() {
                                assert(sofar.to_set().contains(sofar[b]));
                                assert(gone@.to_set().contains(gone@[a - sofar.len()]));
                            }
                        }
                        assert forall|id: usize| both.contains(id) == (sofar.to_set().contains(id)
                            || gone@.to_set().contains(id)) by {
                            if sofar.contains(id) {
                                let a = choose|a: int| 0 <= a < sofar.len() && sofar[a] == id;
                                assert(both[a] == id);
                            }
                            if gone@.contains(id) {
                                let a = choose|a: int| 0 <= a < gone@.len() && gone@[a] == id;
                                assert(both[sofar.len() + a] == id);
                            }
                        }
                        assert(both.to_set() =~= before.active.dom().difference(
                            self.active().dom(),
                        ));
                    }
                    cancelled.append(&mut gone);
                },
                Some(update) => match update.paths() {
                    Some(paths) => self.apply_changes(worktree_id, update.latest(), &paths),
                    None => self.reset(worktree_id, update.latest()),
                },
            }
        }
        assert(listing.take(listing.len() as int) =~= listing);
        proof {
            if worker_laws::nothing_is_forgotten(before) {
                worker_laws::law_all_updates_forget_nothing(filter, before, listing);
            }
        }
        cancelled
    }

    /// Takes in what a batch has found. A batch brings results piece by piece;
    /// without results it has come to its end, and what it has not found stays
    /// without a count.
    pub fn complete(&mut self, batch_id: usize, results: Option<Vec<ProjectLineCount>>)
        ensures
            final(self).cache.filter() == old(self).cache.filter(),
            final(self).progress() == progress::after_completion(
                old(self).progress(),
                batch_id,
                results_in(results),
            ),
            final(self).pending == old(self).pending,
            final(self).next() == old(self).next(),
            worker_laws::nothing_is_forgotten(old(self).progress())
                ==> worker_laws::nothing_is_forgotten(final(self).progress()),
    {
        let ghost before = self.progress();
        let ghost outcome = results_in(results);
        let batch = match self.active.take(batch_id) {
            Some(batch) => batch,
            None => {
                assert(self.active() =~= before.active);
                return ;
            },
        };
        let worktree_id = batch.worktree_id;
        let ghost requests = batch.requests@;
        match results {
            Some(results) => {
                let mut open = batch.requests;
                let paired = pair(&mut open, results);
                self.settle(worktree_id, &paired, Ghost(requests), Ghost(outcome->0));
                self.active.put_back(batch_id, ActiveBatch { worktree_id, requests: open });
                assert(self.active() =~= before.active.insert(
                    batch_id,
                    (worktree_id@, open@),
                ));
            },
            None => {
                self.give_up(worktree_id, &batch.requests);
            },
        }
        proof {
            assert(self.progress() =~= progress::after_completion(before, batch_id, outcome));
            if worker_laws::nothing_is_forgotten(before) {
                worker_laws::law_completions_forget_nothing(before, batch_id, outcome);
            }
        }
    }
}

/// The requests that still wait when paths are gone.
spec fn left_pending(
    pending: PendingRequests,
    id: usize,
    entries: Map<Seq<char>, Entry>,
    changed: Set<Seq<char>>,
) -> PendingRequests {
    ordered_map::restricted(
        pending,
        |key: (usize, Seq<char>), fingerprint: EntryFingerprint|
            !(key.0 == id && progress::is_gone(entries, changed, key.1)),
    )
}

/// A changed path with an entry at it makes nothing gone.
proof fn lemma_still_there(
    known: Map<usize, Counts>,
    pending: PendingRequests,
    id: usize,
    entries: Map<Seq<char>, Entry>,
    seen: Set<Seq<char>>,
    path: Seq<char>,
)
    requires
        entries.contains_key(path),
    ensures
        progress::known_without_gone(known, id, entries, seen.insert(path))
            == progress::known_without_gone(known, id, entries, seen),
        left_pending(pending, id, entries, seen.insert(path)) == left_pending(
            pending,
            id,
            entries,
            seen,
        ),
{
    let more = seen.insert(path);
    assert forall|p: Seq<char>| #[trigger] progress::is_gone(entries, more, p)
        == progress::is_gone(entries, seen, p) by {
    }
    assert forall|p: Seq<char>| #[trigger] progress::is_under_gone(entries, more, p)
        == progress::is_under_gone(entries, seen, p) by {
        if progress::is_under_gone(entries, more, p) {
            let gone = choose|gone: Seq<char>| #[trigger]
                progress::is_gone(entries, more, gone) && rel_path::lies_under(p, gone);
            assert(progress::is_gone(entries, seen, gone));
        }
        if progress::is_under_gone(entries, seen, p) {
            let gone = choose|gone: Seq<char>| #[trigger]
                progress::is_gone(entries, seen, gone) && rel_path::lies_under(p, gone);
            assert(progress::is_gone(entries, more, gone));
        }
    }
    if known.contains_key(id) {
        assert(progress::counts_without_gone(known[id], entries, more)
            =~= progress::counts_without_gone(known[id], entries, seen));
    }
    assert(left_pending(pending, id, entries, more) =~= left_pending(pending, id, entries, seen));
}

/// One more path that is gone.
proof fn lemma_one_gone(
    known: Map<usize, Counts>,
    pending: PendingRequests,
    id: usize,
    entries: Map<Seq<char>, Entry>,
    seen: Set<Seq<char>>,
    path: Seq<char>,
)
    requires
        !entries.contains_key(path),
    ensures
        ({
            let before = progress::known_without_gone(known, id, entries, seen);
            progress::known_without_gone(known, id, entries, seen.insert(path)) == (
            if before.contains_key(id) {
                before.insert(
                    id,
                    ordered_map::restricted(
                        before[id],
                        |p: Seq<char>, entry: LineCountEntry| !rel_path::lies_under(p, path),
                    ),
                )
            } else {
                before
            })
        }),
        left_pending(pending, id, entries, seen.insert(path)) == left_pending(
            pending,
            id,
            entries,
            seen,
        ).remove((id, path)),
{
    let more = seen.insert(path);
    assert forall|p: Seq<char>| #[trigger] progress::is_under_gone(entries, more, p) == (
    progress::is_under_gone(entries, seen, p) || rel_path::lies_under(p, path)) by {
        assert(progress::is_gone(entries, more, path));
        if progress::is_under_gone(entries, more, p) && !rel_path::lies_under(p, path) {
            let gone = choose|gone: Seq<char>| #[trigger]
                progress::is_gone(entries, more, gone) && rel_path::lies_under(p, gone);
            assert(progress::is_gone(entries, seen, gone));
        }
        if progress::is_under_gone(entries, seen, p) {
            let gone = choose|gone: Seq<char>| #[trigger]
                progress::is_gone(entries, seen, gone) && rel_path::lies_under(p, gone);
            assert(progress::is_gone(entries, more, gone));
        }
    }
    let before = progress::known_without_gone(known, id, entries, seen);
    if known.contains_key(id) {
        let rest = ordered_map::restricted(
            before[id],
            |p: Seq<char>, entry: LineCountEntry| !rel_path::lies_under(p, path),
        );
        assert(progress::counts_without_gone(known[id], entries, more) =~= rest);
        assert(known.insert(id, rest) =~= before.insert(id, rest));
    }
    assert(left_pending(pending, id, entries, more) =~= left_pending(
        pending,
        id,
        entries,
        seen,
    ).remove((id, path)));
}

/// Changed entries at distinct paths, path by path.
proof fn lemma_change_by_path(
    filter: LineCountFilter,
    known: Counts,
    present: Seq<&Entry>,
    entries: Map<Seq<char>, Entry>,
    changed: Set<Seq<char>>,
)
    requires
        distinct::distinct_paths(present),
        forall|i: int|
            0 <= i < present.len() ==> progress::is_present(
                entries,
                changed,
                (#[trigger] present[i]).path@,
            ) && entries[present[i].path@] == *present[i],
        forall|path: Seq<char>| #[trigger]
            progress::is_present(entries, changed, path) ==> distinct::has_path(present, path),
    ensures
        cache::counts_on_change(filter, known, present) == progress::counts_with_present(
            filter,
            known,
            entries,
            changed,
        ),
        forall|path: Seq<char>| #[trigger]
            progress::asks_about(cache::requests_on_change(filter, known, present), path)
                <==> progress::change_asks(filter, known, entries, changed, path),
        forall|k: int|
            0 <= k < cache::requests_on_change(filter, known, present).len() ==> (
            #[trigger] cache::requests_on_change(filter, known, present)[k]).1
                == counts::fingerprint_of(
                entries[cache::requests_on_change(filter, known, present)[k].0],
            ),
{
    let requests = cache::requests_on_change(filter, known, present);
    distinct::law_changes_touch_only_their_paths(filter, known, present);
    distinct::lemma_requests_on_change(filter, known, present);
    let after = cache::counts_on_change(filter, known, present);
    let goal = progress::counts_with_present(filter, known, entries, changed);
    assert forall|path: Seq<char>| after.contains_key(path) == goal.contains_key(path) && (
    goal.contains_key(path) ==> after[path] == goal[path]) by {
        if progress::is_present(entries, changed, path) {
            assert(distinct::has_path(present, path));
            let i = choose|i: int| 0 <= i < present.len() && (#[trigger] present[i]).path@ == path;
            assert(entries[present[i].path@] == *present[i]);
        } else {
            if distinct::has_path(present, path) {
                let i = choose|i: int|
                    0 <= i < present.len() && (#[trigger] present[i]).path@ == path;
                assert(progress::is_present(entries, changed, present[i].path@));
            }
        }
    }
    assert(after =~= goal);
    assert forall|k: int| 0 <= k < requests.len() implies (#[trigger] requests[k]).1
        == counts::fingerprint_of(entries[requests[k].0]) && progress::change_asks(
        filter,
        known,
        entries,
        changed,
        requests[k].0,
    ) by {
        assert(distinct::asks_for_one(filter, known, present, requests[k], true));
        let i = choose|i: int|
            0 <= i < present.len() && distinct::is_asked(
                filter,
                known,
                *#[trigger] present[i],
                requests[k],
                true,
            );
        assert(progress::is_present(entries, changed, present[i].path@));
    }
    assert forall|path: Seq<char>| #[trigger]
        progress::asks_about(requests, path) <==> progress::change_asks(
            filter,
            known,
            entries,
            changed,
            path,
        ) by {
        if progress::change_asks(filter, known, entries, changed, path) {
            assert(distinct::has_path(present, path));
            let i = choose|i: int| 0 <= i < present.len() && (#[trigger] present[i]).path@ == path;
            let request = (present[i].path@, counts::fingerprint_of(*present[i]));
            assert(requests.contains(request));
            let k = choose|k: int| 0 <= k < requests.len() && requests[k] == request;
            assert(requests[k].0 == path);
        }
        if progress::asks_about(requests, path) {
            let k = choose|k: int| 0 <= k < requests.len() && (#[trigger] requests[k]).0 == path;
        }
    }
}

/// A request and the result that answers it.
type Pair = (LineCountRequest, ProjectLineCount);

/// Pairs are the first results about requests, each request in one pair.
spec fn pairs_answers(
    pairs: Seq<Pair>,
    requests: Requests,
    results: Seq<ProjectLineCount>,
) -> bool {
    &&& forall|k: int|
        0 <= k < pairs.len() ==> progress::answered(requests, results).contains_key(
            (#[trigger] pairs[k]).0.path@,
        ) && progress::answered(requests, results)[pairs[k].0.path@] == (
            pairs[k].0.fingerprint,
            Some(pairs[k].1),
        )
    &&& forall|path: Seq<char>| #[trigger]
        progress::answered(requests, results).contains_key(path) ==> exists|k: int|
            0 <= k < pairs.len() && (#[trigger] pairs[k]).0.path@ == path
    &&& forall|a: int, b: int|
        0 <= a < b < pairs.len() ==> (#[trigger] pairs[a]).0.path@ != (
        #[trigger] pairs[b]).0.path@
}

/// Takes the requests that the results answer out of `requests`, each with the
/// first result about it.
fn pair(
    requests: &mut OrderedMap<RelPath, EntryFingerprint>,
    results: Vec<ProjectLineCount>,
) -> (pairs: Vec<Pair>)
    ensures
        final(requests)@ == progress::unanswered(old(requests)@, results@),
        pairs_answers(pairs@, old(requests)@, results@),
{
    let ghost asked = requests@;
    let ghost all = results@;
    let mut pairs: Vec<Pair> = Vec::new();
    assert(all.take(0) =~= Seq::<ProjectLineCount>::empty());
    assert(requests@ =~= progress::unanswered(asked, all.take(0)));
    for result in it: results
        invariant
            it.seq() == all,
            requests@ == progress::unanswered(asked, all.take(it.index() as int)),
            pairs_answers(pairs@, asked, all.take(it.index() as int)),
    {
        let ghost i = it.index() as int;
        let ghost seen = all.take(i);
        let ghost more = all.take(i + 1);
        let ghost before = pairs@;
        let ghost path = result.path@;
        proof {
            assert(more.drop_last() =~= seen);
            assert(more.last() == result);
        }
        let found = requests.remove(&result.path);
        assert(requests@ =~= progress::unanswered(asked, more));
        let ghost answers = progress::answered(asked, more);
        let ghost answers_before = progress::answered(asked, seen);
        match found {
            Some(fingerprint) => {
                let request = LineCountRequest { path: result.path.clone(), fingerprint };
                pairs.push((request, result));
                proof {
                    assert(!answers_before.contains_key(path));
                    assert(answers =~= answers_before.insert(path, (fingerprint, Some(result))));
                    assert(pairs@[before.len() as int].0.path@ == path);
                    assert forall|p: Seq<char>| #[trigger] answers.contains_key(
                        p,
                    ) implies exists|k: int|
                        0 <= k < pairs@.len() && (#[trigger] pairs@[k]).0.path@ == p by {
                        if p != path {
                            assert(answers_before.contains_key(p));
                            let k = choose|k: int|
                                0 <= k < before.len() && (#[trigger] before[k]).0.path@ == p;
                            assert(pairs@[k] == before[k]);
                        }
                    }
                    assert forall|k: int| 0 <= k < pairs@.len() implies answers.contains_key(
                        (#[trigger] pairs@[k]).0.path@,
                    ) && answers[pairs@[k].0.path@] == (
                        pairs@[k].0.fingerprint,
                        Some(pairs@[k].1),
                    ) by {
                        if k < before.len() {
                            assert(pairs@[k] == before[k]);
                            assert(answers_before.contains_key(before[k].0.path@));
                        }
                    }
                    assert forall|a: int, b: int| 0 <= a < b < pairs@.len() implies (
                    #[trigger] pairs@[a]).0.path@ != (#[trigger] pairs@[b]).0.path@ by {
                        assert(pairs@[a] == before[a]);
                        assert(answers_before.contains_key(before[a].0.path@));
                        if b < before.len() {
                            assert(pairs@[b] == before[b]);
                        }
                    }
                }
            },
            None => {
                assert(answers =~= answers_before);
            },
        }
    }
    assert(all.take(all.len() as int) =~= all);
    pairs
}

/// What results set, path by path: their requests are about distinct paths and
/// make up `answers`.
proof fn lemma_settled(
    known: Counts,
    results: Seq<(&LineCountRequest, Option<&ProjectLineCount>)>,
    answers: progress::Answers,
)
    requires
        distinct::distinct_requests(results),
        forall|k: int|
            0 <= k < results.len() ==> answers.contains_key((#[trigger] results[k]).0.path@)
                && answers[results[k].0.path@] == (
                results[k].0.fingerprint,
                cache::result_of(results[k].1),
            ),
        forall|path: Seq<char>| #[trigger]
            answers.contains_key(path) ==> exists|k: int|
                0 <= k < results.len() && (#[trigger] results[k]).0.path@ == path,
    ensures
        cache::edited(known, cache::edits_on_results(known, results)) == progress::settled(
            known,
            answers,
        ),
        (forall|k: int|
            0 <= k < results.len() ==> !cache::is_awaited(
                known,
                (#[trigger] results[k]).0.path@,
                results[k].0.fingerprint,
            )) ==> progress::settled(known, answers) == known,
{
    distinct::law_results_touch_only_awaited_entries(known, results);
    let after = cache::edited(known, cache::edits_on_results(known, results));
    let goal = progress::settled(known, answers);
    assert forall|path: Seq<char>| #[trigger] known.contains_key(path) implies after[path]
        == goal[path] by {
        if answers.contains_key(path) {
            let k = choose|k: int|
                0 <= k < results.len() && (#[trigger] results[k]).0.path@ == path;
            if cache::is_awaited(known, path, answers[path].0) {
                assert(after[results[k].0.path@] == goal[path]);
            } else {
                assert forall|i: int|
                    0 <= i < results.len() && (#[trigger] results[i]).0.path@
                        == path implies !cache::is_awaited(
                    known,
                    path,
                    results[i].0.fingerprint,
                ) by {
                    assert(answers[results[i].0.path@].0 == results[i].0.fingerprint);
                }
                assert(after[path] == known[path]);
            }
        } else {
            assert forall|i: int|
                0 <= i < results.len() && (#[trigger] results[i]).0.path@
                    == path implies !cache::is_awaited(
                known,
                path,
                results[i].0.fingerprint,
            ) by {
                assert(answers.contains_key(results[i].0.path@));
            }
            assert(after[path] == known[path]);
        }
    }
    assert(after =~= goal);
    if forall|k: int|
        0 <= k < results.len() ==> !cache::is_awaited(
            known,
            (#[trigger] results[k]).0.path@,
            results[k].0.fingerprint,
        ) {
        assert forall|path: Seq<char>| #[trigger] known.contains_key(path) implies goal[path]
            == known[path] by {
            if answers.contains_key(path) {
                let k = choose|k: int|
                    0 <= k < results.len() && (#[trigger] results[k]).0.path@ == path;
            }
        }
        assert(goal =~= known);
    }
}

impl LineCountWorker {
    /// Applies results to the cache. They are those in `results` that answer
    /// `requests`.
    fn settle(
        &mut self,
        worktree_id: WorktreeId,
        pairs: &Vec<Pair>,
        Ghost(requests): Ghost<Requests>,
        Ghost(results): Ghost<Seq<ProjectLineCount>>,
    )
        requires
            pairs_answers(pairs@, requests, results),
        ensures
            final(self).cache.filter() == old(self).cache.filter(),
            final(self).cache@ == progress::known_settled(
                old(self).cache@,
                worktree_id@,
                progress::answered(requests, results),
            ),
            final(self).pending == old(self).pending,
            final(self).active == old(self).active,
    {
        let ghost before = self.cache@;
        let ghost answers = progress::answered(requests, results);
        let mut applied: Vec<(&LineCountRequest, Option<&ProjectLineCount>)> = Vec::new();
        for i in 0..pairs.len()
            invariant
                applied@.len() == i,
                forall|k: int|
                    0 <= k < i ==> *(#[trigger] applied@[k]).0 == pairs@[k].0
                        && cache::result_of(applied@[k].1) == Some(pairs@[k].1),
        {
            applied.push((&pairs[i].0, Some(&pairs[i].1)));
        }
        proof {
            let known = cache::counts_in(before, worktree_id@);
            assert forall|path: Seq<char>| #[trigger] answers.contains_key(path) implies exists|
                k: int,
            | 0 <= k < applied@.len() && (#[trigger] applied@[k]).0.path@ == path by {
                let k = choose|k: int|
                    0 <= k < pairs@.len() && (#[trigger] pairs@[k]).0.path@ == path;
                assert(applied@[k].0.path@ == path);
            }
            assert forall|a: int, b: int| 0 <= a < b < applied@.len() implies (
            #[trigger] applied@[a]).0.path@ != (#[trigger] applied@[b]).0.path@ by {
                assert(pairs@[a].0.path@ != pairs@[b].0.path@);
            }
            lemma_settled(known, applied@, answers);
        }
        self.cache.apply_many(worktree_id, applied.as_slice());
        assert(self.cache@ =~= progress::known_settled(before, worktree_id@, answers));
    }

    /// Leaves what is still open of a batch without a count.
    fn give_up(&mut self, worktree_id: WorktreeId, open: &OrderedMap<RelPath, EntryFingerprint>)
        ensures
            final(self).cache.filter() == old(self).cache.filter(),
            final(self).cache@ == progress::known_settled(
                old(self).cache@,
                worktree_id@,
                progress::given_up(open@),
            ),
            final(self).pending == old(self).pending,
            final(self).active == old(self).active,
    {
        let ghost before = self.cache@;
        let ghost answers = progress::given_up(open@);
        let ghost listing = open.listing();
        let len: usize = open.len();
        let mut requests: Vec<LineCountRequest> = Vec::new();
        for i in 0..len
            invariant
                listing == open.listing(),
                len == listing.len(),
                requests@.len() == i,
                forall|k: int|
                    0 <= k < i ==> (#[trigger] requests@[k]).path@ == listing[k].0
                        && requests@[k].fingerprint == listing[k].1,
        {
            requests.push(
                LineCountRequest {
                    path: open.key_at(i).clone(),
                    fingerprint: *open.value_at(i),
                },
            );
        }
        let mut applied: Vec<(&LineCountRequest, Option<&ProjectLineCount>)> = Vec::new();
        for i in 0..requests.len()
            invariant
                applied@.len() == i,
                forall|k: int|
                    0 <= k < i ==> *(#[trigger] applied@[k]).0 == requests@[k] && applied@[k].1
                        is None,
        {
            applied.push((&requests[i], None));
        }
        proof {
            ordered_map::lemma_map_of::<RelPath, EntryFingerprint>(listing);
            let known = cache::counts_in(before, worktree_id@);
            assert forall|k: int| 0 <= k < applied@.len() implies answers.contains_key(
                (#[trigger] applied@[k]).0.path@,
            ) && answers[applied@[k].0.path@] == (
                applied@[k].0.fingerprint,
                cache::result_of(applied@[k].1),
            ) by {
                assert(open@.contains_key(listing[k].0));
            }
            assert forall|path: Seq<char>| #[trigger] answers.contains_key(path) implies exists|
                k: int,
            | 0 <= k < applied@.len() && (#[trigger] applied@[k]).0.path@ == path by {
                assert(open@.contains_key(path));
                let k = choose|k: int| 0 <= k < listing.len() && (#[trigger] listing[k]).0 == path;
                assert(applied@[k].0.path@ == path);
            }
            assert forall|a: int, b: int| 0 <= a < b < applied@.len() implies (
            #[trigger] applied@[a]).0.path@ != (#[trigger] applied@[b]).0.path@ by {
                assert(listing[a].0 != listing[b].0);
            }
            lemma_settled(known, applied@, answers);
        }
        self.cache.apply_many(worktree_id, applied.as_slice());
        assert(self.cache@ =~= progress::known_settled(before, worktree_id@, answers));
    }
}

/// A reset to entries at distinct paths, path by path.
proof fn lemma_reset_by_path(
    filter: LineCountFilter,
    known: Counts,
    entries: Seq<&Entry>,
    by_path: Map<Seq<char>, Entry>,
)
    requires
        distinct::distinct_paths(entries),
        forall|path: Seq<char>| #[trigger]
            by_path.contains_key(path) ==> exists|i: int|
                0 <= i < entries.len() && (#[trigger] entries[i]).path@ == path && *entries[i]
                    == by_path[path],
        forall|i: int|
            0 <= i < entries.len() ==> by_path.contains_key((#[trigger] entries[i]).path@)
                && by_path[entries[i].path@] == *entries[i],
    ensures
        cache::counts_on_reset(filter, known, entries) == progress::counts_of_all(
            filter,
            known,
            by_path,
        ),
        forall|path: Seq<char>| #[trigger]
            progress::asks_about(cache::requests_on_reset(filter, known, entries), path)
                <==> progress::reset_asks(filter, known, by_path, path),
        forall|k: int|
            0 <= k < cache::requests_on_reset(filter, known, entries).len() ==> (
            #[trigger] cache::requests_on_reset(filter, known, entries)[k]).1
                == counts::fingerprint_of(
                by_path[cache::requests_on_reset(filter, known, entries)[k].0],
            ),
{
    let requests = cache::requests_on_reset(filter, known, entries);
    distinct::law_reset_keeps_what_is_there(filter, known, entries);
    distinct::lemma_requests_on_reset(filter, known, entries);
    let after = cache::counts_on_reset(filter, known, entries);
    let goal = progress::counts_of_all(filter, known, by_path);
    assert forall|path: Seq<char>| #[trigger] after.contains_key(path) implies goal.contains_key(
        path,
    ) && goal[path] == after[path] by {
        assert(distinct::has_path(entries, path));
        let i = choose|i: int| 0 <= i < entries.len() && (#[trigger] entries[i]).path@ == path;
        assert(by_path.contains_key(entries[i].path@));
    }
    assert forall|path: Seq<char>| #[trigger] goal.contains_key(path) implies after.contains_key(
        path,
    ) by {
        assert(by_path.contains_key(path));
        let i = choose|i: int|
            0 <= i < entries.len() && (#[trigger] entries[i]).path@ == path && *entries[i]
                == by_path[path];
        assert(after.contains_key(entries[i].path@));
    }
    assert(after =~= goal);
    assert forall|k: int| 0 <= k < requests.len() implies (#[trigger] requests[k]).1
        == counts::fingerprint_of(by_path[requests[k].0]) && progress::reset_asks(
        filter,
        known,
        by_path,
        requests[k].0,
    ) by {
        assert(distinct::asks_for_one(filter, known, entries, requests[k], false));
        let i = choose|i: int|
            0 <= i < entries.len() && distinct::is_asked(
                filter,
                known,
                *#[trigger] entries[i],
                requests[k],
                false,
            );
        assert(by_path.contains_key(entries[i].path@));
    }
    assert forall|path: Seq<char>| #[trigger]
        progress::asks_about(requests, path) <==> progress::reset_asks(
            filter,
            known,
            by_path,
            path,
        ) by {
        if progress::reset_asks(filter, known, by_path, path) {
            let i = choose|i: int|
                0 <= i < entries.len() && (#[trigger] entries[i]).path@ == path && *entries[i]
                    == by_path[path];
            let request = (entries[i].path@, counts::fingerprint_of(*entries[i]));
            assert(requests.contains(request));
            let k = choose|k: int| 0 <= k < requests.len() && requests[k] == request;
            assert(requests[k].0 == path);
        }
        if progress::asks_about(requests, path) {
            let k = choose|k: int| 0 <= k < requests.len() && (#[trigger] requests[k]).0 == path;
        }
    }
}

/// The paths of requests.
fn paths_in(requests: &OrderedMap<RelPath, EntryFingerprint>) -> (paths: Vec<RelPath>)
    ensures
        rel_path::texts_of(paths@).no_duplicates(),
        rel_path::texts_of(paths@).to_set() == requests@.dom(),
{
    let mut paths: Vec<RelPath> = Vec::new();
    let len: usize = requests.len();
    let ghost listing = requests.listing();
    for i in 0..len
        invariant
            listing == requests.listing(),
            len == listing.len(),
            paths@.len() == i,
            forall|k: int| 0 <= k < i ==> (#[trigger] paths@[k])@ == listing[k].0,
    {
        paths.push(requests.key_at(i).clone());
    }
    proof {
        ordered_map::lemma_map_of::<RelPath, EntryFingerprint>(listing);
        let texts = rel_path::texts_of(paths@);
        assert forall|a: int, b: int|
            0 <= a < texts.len() && 0 <= b < texts.len() && a != b implies texts[a] != texts[b] by {
            assert(listing[a].0 == texts[a] && listing[b].0 == texts[b]);
        }
        assert forall|path: Seq<char>| texts.contains(path) == requests@.contains_key(path) by {
            if texts.contains(path) {
                let a = choose|a: int| 0 <= a < texts.len() && texts[a] == path;
                assert(listing[a].0 == path);
            }
            if requests@.contains_key(path) {
                let a = choose|a: int| 0 <= a < listing.len() && (#[trigger] listing[a]).0 == path;
                assert(texts[a] == path);
            }
        }
        assert(texts.to_set() =~= requests@.dom());
    }
    paths
}

} // verus!
