//! Requests that wait for their turn, and the batches that are being counted.

use crate::counts::EntryFingerprint;
use crate::order::{Key, Precedence};
use crate::ordered_map;
use crate::ordered_map::OrderedMap;
use crate::rel_path;
use crate::rel_path::RelPath;
use crate::worktree::WorktreeId;
use vstd::prelude::*;

verus! {

/// How many batches are counted at a time.
pub const MAX_ACTIVE_BATCHES: usize = 4;

/// How many requests a batch holds at most.
pub const MAX_BATCH_REQUESTS: usize = 2048;

/// Requests in one worktree: the fingerprint that is asked for, by path.
pub type Requests = Map<Seq<char>, EntryFingerprint>;

/// Requests that wait: the fingerprint that is asked for, by worktree and path.
pub type PendingRequests = Map<(usize, Seq<char>), EntryFingerprint>;

/// Batches that are being counted, by number: their worktree, and what is still
/// to come of what they asked for.
pub type ActiveRequests = Map<usize, (usize, Requests)>;

/// Where a waiting request stands.
#[derive(Debug)]
pub struct PendingKey {
    pub worktree_id: WorktreeId,
    pub path: RelPath,
}

impl Key for PendingKey {
    type Model = (usize, Seq<char>);

    open spec fn model(&self) -> (usize, Seq<char>) {
        (self.worktree_id@, self.path@)
    }

    open spec fn before(a: (usize, Seq<char>), b: (usize, Seq<char>)) -> bool {
        a.0 < b.0 || (a.0 == b.0 && rel_path::path_before(a.1, b.1))
    }

    proof fn lemma_irreflexive(a: (usize, Seq<char>)) {
        RelPath::lemma_irreflexive(a.1);
    }

    proof fn lemma_transitive(
        a: (usize, Seq<char>),
        b: (usize, Seq<char>),
        c: (usize, Seq<char>),
    ) {
        if a.0 == b.0 && b.0 == c.0 {
            RelPath::lemma_transitive(a.1, b.1, c.1);
        }
    }

    proof fn lemma_total(a: (usize, Seq<char>), b: (usize, Seq<char>)) {
        RelPath::lemma_total(a.1, b.1);
    }

    fn compare(&self, other: &PendingKey) -> (standing: Precedence) {
        match self.worktree_id.compare(&other.worktree_id) {
            Precedence::Same => self.path.compare(&other.path),
            standing => standing,
        }
    }

    fn duplicate(&self) -> (copy: PendingKey) {
        PendingKey { worktree_id: self.worktree_id, path: self.path.clone() }
    }
}

/// What a batch that is being counted still waits for.
#[derive(Debug)]
pub struct ActiveBatch {
    pub worktree_id: WorktreeId,
    pub requests: OrderedMap<RelPath, EntryFingerprint>,
}

pub open spec fn batch_model(batch: ActiveBatch) -> (usize, Requests) {
    (batch.worktree_id@, batch.requests@)
}

/// The batches that are being counted, and the number of the next one.
pub struct ActiveBatches {
    batches: OrderedMap<usize, ActiveBatch>,
    next: usize,
}

pub open spec fn batches_model(batches: Map<usize, ActiveBatch>) -> ActiveRequests {
    Map::new(|id: usize| batches.contains_key(id), |id: usize| batch_model(batches[id]))
}

impl View for ActiveBatches {
    type V = ActiveRequests;

    closed spec fn view(&self) -> ActiveRequests {
        batches_model(self.batches@)
    }
}

impl ActiveBatches {
    pub closed spec fn next(&self) -> usize {
        self.next
    }

    #[verifier::type_invariant]
    closed spec fn few_and_numbered(&self) -> bool {
        &&& self.batches@.len() <= MAX_ACTIVE_BATCHES
        &&& self.batches@.dom().finite()
        &&& forall|id: usize| #[trigger] self.batches@.contains_key(id) ==> id < self.next
    }

    pub fn new() -> (active: ActiveBatches)
        ensures
            active@ == Map::<usize, (usize, Requests)>::empty(),
            active.next() == 0,
    {
        let active = ActiveBatches { batches: OrderedMap::new(), next: 0 };
        assert(active@ =~= Map::<usize, (usize, Requests)>::empty());
        active
    }

    /// The number of the next batch.
    pub fn next_batch(&self) -> (next: usize)
        ensures
            next == self.next(),
    {
        self.next
    }

    /// How many batches are being counted.
    pub fn len(&self) -> (len: usize)
        ensures
            len == self@.len(),
            len <= MAX_ACTIVE_BATCHES,
            self@.dom().finite(),
            forall|id: usize| #[trigger] self@.contains_key(id) ==> id < self.next(),
    {
        proof {
            use_type_invariant(self);
            assert(self@.dom() =~= self.batches@.dom());
        }
        self.batches.len()
    }

    /// What a batch still waits for.
    pub fn get(&self, id: usize) -> (found: Option<&ActiveBatch>)
        ensures
            match found {
                Some(batch) => self@.contains_key(id) && batch_model(*batch) == self@[id],
                None => !self@.contains_key(id),
            },
    {
        self.batches.get(&id)
    }

    /// Starts a batch and gives back its number.
    pub fn start(&mut self, batch: ActiveBatch) -> (id: usize)
        requires
            old(self)@.len() < MAX_ACTIVE_BATCHES,
            old(self).next() < usize::MAX,
        ensures
            id == old(self).next(),
            !old(self)@.contains_key(id),
            final(self).next() == id + 1,
            final(self)@ == old(self)@.insert(id, batch_model(batch)),
            final(self)@.len() == old(self)@.len() + 1,
    {
        proof {
            use_type_invariant(&*self);
            assert(self@.dom() =~= self.batches@.dom());
        }
        let mut batches: OrderedMap<usize, ActiveBatch> = OrderedMap::new();
        std::mem::swap(&mut batches, &mut self.batches);
        let id: usize = self.next;
        self.next = id + 1;
        batches.insert(id, batch);
        self.batches = batches;
        assert(self@ =~= old(self)@.insert(id, batch_model(batch)));
        id
    }

    /// Takes a batch out.
    pub fn take(&mut self, id: usize) -> (taken: Option<ActiveBatch>)
        ensures
            final(self)@ == old(self)@.remove(id),
            final(self).next() == old(self).next(),
            match taken {
                Some(batch) => {
                    &&& old(self)@.contains_key(id)
                    &&& batch_model(batch) == old(self)@[id]
                    &&& final(self)@.len() < MAX_ACTIVE_BATCHES
                    &&& id < final(self).next()
                },
                None => !old(self)@.contains_key(id),
            },
    {
        proof {
            use_type_invariant(&*self);
        }
        let mut batches: OrderedMap<usize, ActiveBatch> = OrderedMap::new();
        std::mem::swap(&mut batches, &mut self.batches);
        let taken = batches.remove(&id);
        self.batches = batches;
        proof {
            assert(self@ =~= old(self)@.remove(id));
            assert(self@.dom() =~= self.batches@.dom());
        }
        taken
    }

    /// Puts a batch that was taken out back in.
    pub fn put_back(&mut self, id: usize, batch: ActiveBatch)
        requires
            id < old(self).next(),
            old(self)@.len() < MAX_ACTIVE_BATCHES,
        ensures
            final(self)@ == old(self)@.insert(id, batch_model(batch)),
            final(self).next() == old(self).next(),
    {
        proof {
            use_type_invariant(&*self);
            assert(self@.dom() =~= self.batches@.dom());
        }
        let mut batches: OrderedMap<usize, ActiveBatch> = OrderedMap::new();
        std::mem::swap(&mut batches, &mut self.batches);
        batches.insert(id, batch);
        self.batches = batches;
        assert(self@ =~= old(self)@.insert(id, batch_model(batch)));
    }

    /// Takes out all batches of a worktree and gives back their numbers.
    pub fn cancel(&mut self, worktree_id: WorktreeId) -> (cancelled: Vec<usize>)
        ensures
            final(self)@ == ordered_map::restricted(
                old(self)@,
                |id: usize, batch: (usize, Requests)| batch.0 != worktree_id@,
            ),
            final(self).next() == old(self).next(),
            cancelled@.no_duplicates(),
            cancelled@.to_set() == old(self)@.dom().difference(final(self)@.dom()),
    {
        let ghost before = self.batches@;
        let ghost listing = self.batches.listing();
        let ghost stays = |id: usize, batch: (usize, Requests)| batch.0 != worktree_id@;
        proof {
            use_type_invariant(&*self);
        }
        let mut cancelled: Vec<usize> = Vec::new();
        let ghost mut origin: Seq<int> = Seq::empty();
        let len: usize = self.batches.len();
        proof {
            ordered_map::lemma_map_of::<usize, ActiveBatch>(listing);
        }
        for i in 0..len
            invariant
                len == listing.len(),
                listing == self.batches.listing(),
                forall|a: int, b: int|
                    0 <= a < b < listing.len() ==> (#[trigger] listing[a]).0 < (
                    #[trigger] listing[b]).0,
                origin.len() == cancelled@.len(),
                forall|k: int|
                    0 <= k < cancelled@.len() ==> 0 <= #[trigger] origin[k] < i && cancelled@[k]
                        == listing[origin[k]].0 && listing[origin[k]].1.worktree_id@
                        == worktree_id@,
                forall|a: int, b: int|
                    0 <= a < b < origin.len() ==> #[trigger] origin[a] < #[trigger] origin[b],
                forall|j: int|
                    0 <= j < i && (#[trigger] listing[j]).1.worktree_id@ == worktree_id@
                        ==> cancelled@.contains(listing[j].0),
        {
            let ghost sofar = cancelled@;
            if self.batches.value_at(i).worktree_id.same_as(&worktree_id) {
                cancelled.push(*self.batches.key_at(i));
                proof {
                    origin = origin.push(i as int);
                    assert(cancelled@ =~= sofar.push(listing[i as int].0));
                    assert forall|j: int|
                        0 <= j < i + 1 && (#[trigger] listing[j]).1.worktree_id@
                            == worktree_id@ implies cancelled@.contains(listing[j].0) by {
                        if j < i {
                            let k = choose|k: int|
                                0 <= k < sofar.len() && sofar[k] == listing[j].0;
                            assert(cancelled@[k] == listing[j].0);
                        } else {
                            assert(cancelled@[sofar.len() as int] == listing[j].0);
                        }
                    }
                }
            }
        }
        assert forall|a: int, b: int|
            0 <= a < cancelled@.len() && 0 <= b < cancelled@.len() && a != b implies cancelled@[a]
            != cancelled@[b] by {
            if a < b {
                assert(origin[a] < origin[b]);
            } else {
                assert(origin[b] < origin[a]);
            }
        }
        let mut batches: OrderedMap<usize, ActiveBatch> = OrderedMap::new();
        std::mem::swap(&mut batches, &mut self.batches);
        let elsewhere = |id: &usize, batch: &ActiveBatch| -> (elsewhere: bool)
            ensures
                elsewhere == (batch.worktree_id@ != worktree_id@),
        {
            !batch.worktree_id.same_as(&worktree_id)
        };
        batches.retain(
            elsewhere,
            Ghost(|id: usize, batch: ActiveBatch| batch.worktree_id@ != worktree_id@),
        );
        proof {
            let after = batches@;
            assert(after.dom().subset_of(before.dom()));
            vstd::set_lib::lemma_len_subset(after.dom(), before.dom());
        }
        self.batches = batches;
        proof {
            assert(self@ =~= ordered_map::restricted(old(self)@, stays));
            let gone = old(self)@.dom().difference(self@.dom());
            assert forall|id: usize| cancelled@.contains(id) == gone.contains(id) by {
                if cancelled@.contains(id) {
                    let k = choose|k: int| 0 <= k < cancelled@.len() && cancelled@[k] == id;
                    assert(cancelled@[k] == listing[origin[k]].0);
                }
                if gone.contains(id) {
                    assert(before.contains_key(id));
                    let j = choose|j: int|
                        0 <= j < listing.len() && (#[trigger] listing[j]).0 == id;
                }
            }
            assert(cancelled@.to_set() =~= gone);
        }
        cancelled
    }
}

} // verus!
