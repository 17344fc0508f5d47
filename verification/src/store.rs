//! The counts that are kept from one session to the next, as far as they have
//! been read into memory.

use crate::candidate::LineCountCandidate;
use crate::counts::FileLineCount;
use crate::order;
use crate::order::{Key, Precedence};
use crate::ordered_map;
use crate::ordered_map::OrderedMap;
use crate::rel_path;
use crate::rel_path::RelPath;
use crate::rows;
use crate::rows::{can_persist, read_rows, CachedLineCount, Counted, Kept, LineCountRow, StoreError};
use crate::transaction::TransactionOutcome;
use vstd::prelude::*;

verus! {

/// How long counts of a worktree that nobody asks for are kept: 90 days.
pub const CACHE_RETENTION_SECONDS: i64 = 90 * 24 * 60 * 60;

/// How long after the last note of it another access to a worktree is noted:
/// a day.
pub const ACCESS_REFRESH_SECONDS: i64 = 24 * 60 * 60;

/// `n` as far as the type can hold it.
pub open spec fn clamped(n: int) -> i64 {
    if n < i64::MIN {
        i64::MIN
    } else if n > i64::MAX {
        i64::MAX
    } else {
        n as i64
    }
}

/// Worktrees last accessed before this time are forgotten.
pub fn retention_cutoff(now: i64) -> (cutoff: i64)
    ensures
        cutoff == clamped(now - CACHE_RETENTION_SECONDS),
{
    if now < i64::MIN + CACHE_RETENTION_SECONDS {
        i64::MIN
    } else {
        now - CACHE_RETENTION_SECONDS
    }
}

/// Whether enough time has passed since `last_accessed`.
pub open spec fn access_is_old(now: i64, last_accessed: i64) -> bool {
    now - last_accessed >= ACCESS_REFRESH_SECONDS
}

/// The root of a worktree: the bytes of its absolute path.
#[derive(Debug)]
pub struct WorktreeRoot {
    bytes: Vec<u8>,
}

impl View for WorktreeRoot {
    type V = Seq<u8>;

    closed spec fn view(&self) -> Seq<u8> {
        self.bytes@
    }
}

impl Clone for WorktreeRoot {
    fn clone(&self) -> (copy: WorktreeRoot)
        ensures
            copy@ == self@,
    {
        let bytes = self.bytes.clone();
        assert(bytes@ =~= self.bytes@);
        WorktreeRoot { bytes }
    }
}

impl WorktreeRoot {
    pub fn from_bytes(bytes: Vec<u8>) -> (root: WorktreeRoot)
        ensures
            root@ == bytes@,
    {
        WorktreeRoot { bytes }
    }

    pub fn as_bytes(&self) -> (bytes: &[u8])
        ensures
            bytes@ == self@,
    {
        self.bytes.as_slice()
    }
}

/// The bytes as integers.
pub open spec fn byte_values(bytes: Seq<u8>) -> Seq<int> {
    Seq::new(bytes.len(), |i: int| bytes[i] as int)
}

proof fn lemma_byte_values_injective(a: Seq<u8>, b: Seq<u8>)
    requires
        byte_values(a) == byte_values(b),
    ensures
        a == b,
{
    assert(byte_values(a).len() == a.len() && byte_values(b).len() == b.len());
    assert forall|i: int| 0 <= i < a.len() implies a[i] == b[i] by {
        assert(byte_values(a)[i] == a[i] as int && byte_values(b)[i] == b[i] as int);
    }
    assert(a =~= b);
}

impl Key for WorktreeRoot {
    type Model = Seq<u8>;

    open spec fn model(&self) -> Seq<u8> {
        self@
    }

    open spec fn before(a: Seq<u8>, b: Seq<u8>) -> bool {
        order::lex_before(byte_values(a), byte_values(b))
    }

    proof fn lemma_irreflexive(a: Seq<u8>) {
        order::lemma_lex_irreflexive(byte_values(a));
    }

    proof fn lemma_transitive(a: Seq<u8>, b: Seq<u8>, c: Seq<u8>) {
        order::lemma_lex_transitive(byte_values(a), byte_values(b), byte_values(c));
    }

    proof fn lemma_total(a: Seq<u8>, b: Seq<u8>) {
        order::lemma_lex_total(byte_values(a), byte_values(b));
        if byte_values(a) == byte_values(b) {
            lemma_byte_values_injective(a, b);
        }
    }

    fn compare(&self, other: &WorktreeRoot) -> (standing: Precedence) {
        let ghost a = byte_values(self@);
        let ghost b = byte_values(other@);
        let mut i: usize = 0;
        while i < self.bytes.len() && i < other.bytes.len() && self.bytes[i] == other.bytes[i]
            invariant
                a == byte_values(self.bytes@),
                b == byte_values(other.bytes@),
                order::agree_until(a, b, i as int),
            decreases self.bytes.len() - i,
        {
            i = i + 1;
        }
        if i == self.bytes.len() && i == other.bytes.len() {
            proof {
                assert(a =~= b);
                lemma_byte_values_injective(self@, other@);
            }
            Precedence::Same
        } else if i == self.bytes.len() || (i < other.bytes.len() && self.bytes[i]
            < other.bytes[i]) {
            assert(order::lex_before_at(a, b, i as int));
            Precedence::Before
        } else {
            assert(order::lex_before_at(b, a, i as int));
            Precedence::After
        }
    }

    fn duplicate(&self) -> (copy: WorktreeRoot) {
        self.clone()
    }
}

/// The counts of a worktree in memory, when an access to it was last noted, and
/// the version of the database that they were read from.
pub struct LoadedWorktree {
    entries: OrderedMap<RelPath, CachedLineCount>,
    last_accessed: i64,
    data_version: i64,
}

/// What is in memory of a worktree.
pub struct Loaded {
    pub kept: Kept,
    pub last_accessed: i64,
    pub data_version: i64,
}

/// What is in memory, by root.
pub type LoadedWorktrees = Map<Seq<u8>, Loaded>;

impl View for LoadedWorktree {
    type V = Loaded;

    closed spec fn view(&self) -> Loaded {
        Loaded {
            kept: self.entries@,
            last_accessed: self.last_accessed,
            data_version: self.data_version,
        }
    }
}

/// What has to be done before the counts of a worktree can be used.
#[derive(Clone, Copy, Debug, PartialEq, Eq, Structural)]
pub struct LoadPlan {
    /// The access is to be noted.
    pub must_refresh_access: bool,
    /// The rows are to be read.
    pub must_reload: bool,
}

/// What has to be done for the worktree at `root`.
pub open spec fn plan_for(
    loaded: LoadedWorktrees,
    root: Seq<u8>,
    now: i64,
    data_version: i64,
) -> LoadPlan {
    LoadPlan {
        must_refresh_access: !loaded.contains_key(root) || access_is_old(
            now,
            loaded[root].last_accessed,
        ),
        must_reload: !loaded.contains_key(root) || loaded[root].data_version != data_version,
    }
}

/// What is in memory once the plan has been carried out.
pub open spec fn after_load(
    loaded: LoadedWorktrees,
    root: Seq<u8>,
    now: i64,
    data_version: i64,
    read: Kept,
) -> LoadedWorktrees {
    let plan = plan_for(loaded, root, now, data_version);
    if plan.must_reload {
        loaded.insert(root, Loaded { kept: read, last_accessed: now, data_version })
    } else if plan.must_refresh_access {
        loaded.insert(root, Loaded { last_accessed: now, ..loaded[root] })
    } else {
        loaded
    }
}

/// A candidate whose count is kept for the very state in which it was seen.
pub open spec fn is_hit(kept: Kept, candidate: LineCountCandidate) -> bool {
    &&& candidate.fingerprint matches Some(fingerprint)
    &&& kept.contains_key(candidate.path@)
    &&& kept[candidate.path@].fingerprint == fingerprint
}

/// One of the candidates at `path` is a hit.
pub open spec fn has_hit(
    kept: Kept,
    candidates: Seq<LineCountCandidate>,
    path: Seq<char>,
) -> bool {
    exists|i: int|
        0 <= i < candidates.len() && (#[trigger] candidates[i]).path@ == path && is_hit(
            kept,
            candidates[i],
        )
}

/// The kept counts of candidates, by path.
pub open spec fn hits(kept: Kept, candidates: Seq<LineCountCandidate>) -> Map<
    Seq<char>,
    FileLineCount,
> {
    Map::new(
        |path: Seq<char>| has_hit(kept, candidates, path),
        |path: Seq<char>| kept[path].count,
    )
}

/// The paths whose counts are kept though nothing is at them any more.
pub open spec fn stale(kept: Kept, valid: Set<Seq<char>>) -> Set<Seq<char>> {
    kept.dom().difference(valid)
}

/// What is in memory when the counts of a worktree have become `kept`.
pub open spec fn with_kept(loaded: LoadedWorktrees, root: Seq<u8>, kept: Kept) -> LoadedWorktrees {
    loaded.insert(root, Loaded { kept, ..loaded[root] })
}

/// Why counts are not remembered: their times cannot be persisted, the
/// transaction that was to put them into the table has not been committed, or
/// the worktree has not been loaded. With no counts there is nothing to fail.
pub open spec fn store_error(
    loaded: LoadedWorktrees,
    root: Seq<u8>,
    counts: Seq<Counted>,
    outcome: TransactionOutcome,
) -> Option<StoreError> {
    if counts.len() == 0 {
        None
    } else if !rows::times_persist(counts) {
        Some(StoreError::MtimeBeforeEpoch)
    } else if outcome !is Committed {
        Some(StoreError::NotCommitted)
    } else if !loaded.contains_key(root) {
        Some(StoreError::NotLoaded)
    } else {
        None
    }
}

/// What is in memory once counts are to be remembered: all of them, or what was
/// there before.
pub open spec fn after_store(
    loaded: LoadedWorktrees,
    root: Seq<u8>,
    counts: Seq<Counted>,
    outcome: TransactionOutcome,
) -> LoadedWorktrees {
    if counts.len() > 0 && store_error(loaded, root, counts, outcome) is None {
        with_kept(loaded, root, rows::remembered(loaded[root].kept, counts))
    } else {
        loaded
    }
}

/// Why stale counts are not forgotten: the worktree has not been loaded, or the
/// transaction that was to delete their rows has not been committed. Without
/// stale paths there is nothing to delete.
pub open spec fn reconcile_error(
    loaded: LoadedWorktrees,
    root: Seq<u8>,
    stale_paths: Seq<Seq<char>>,
    outcome: TransactionOutcome,
) -> Option<StoreError> {
    if !loaded.contains_key(root) {
        Some(StoreError::NotLoaded)
    } else if stale_paths.len() > 0 && outcome !is Committed {
        Some(StoreError::NotCommitted)
    } else {
        None
    }
}

/// What is in memory once stale counts are to be forgotten: nothing of them, or
/// what was there before.
pub open spec fn after_reconcile(
    loaded: LoadedWorktrees,
    root: Seq<u8>,
    stale_paths: Seq<Seq<char>>,
    outcome: TransactionOutcome,
) -> LoadedWorktrees {
    if reconcile_error(loaded, root, stale_paths, outcome) is None {
        with_kept(loaded, root, loaded[root].kept.remove_keys(stale_paths.to_set()))
    } else {
        loaded
    }
}

/// A result without a value, by its error.
pub open spec fn result_with(error: Option<StoreError>) -> Result<(), StoreError> {
    match error {
        Some(error) => Err(error),
        None => Ok(()),
    }
}

spec fn loaded_view(worktrees: Map<Seq<u8>, LoadedWorktree>) -> LoadedWorktrees {
    Map::new(|root: Seq<u8>| worktrees.contains_key(root), |root: Seq<u8>| worktrees[root]@)
}

/// The counts that have been read into memory, worktree by worktree.
pub struct LineCountStore {
    worktrees: OrderedMap<WorktreeRoot, LoadedWorktree>,
}

impl View for LineCountStore {
    type V = LoadedWorktrees;

    closed spec fn view(&self) -> LoadedWorktrees {
        loaded_view(self.worktrees@)
    }
}

impl LineCountStore {
    /// Nothing has been read yet.
    pub fn new() -> (store: LineCountStore)
        ensures
            store@ == Map::<Seq<u8>, Loaded>::empty(),
    {
        let store = LineCountStore { worktrees: OrderedMap::new() };
        assert(store@ =~= Map::<Seq<u8>, Loaded>::empty());
        store
    }

    /// What has to be done before the counts of the worktree at `root` can be
    /// used, at the time `now` and with the database at `data_version`.
    pub fn load_plan(&self, root: &WorktreeRoot, now: i64, data_version: i64) -> (plan: LoadPlan)
        ensures
            plan == plan_for(self@, root@, now, data_version),
    {
        match self.worktrees.get(root) {
            Some(worktree) => LoadPlan {
                must_refresh_access: now as i128 - worktree.last_accessed as i128
                    >= ACCESS_REFRESH_SECONDS as i128,
                must_reload: worktree.data_version != data_version,
            },
            None => LoadPlan { must_refresh_access: true, must_reload: true },
        }
    }

    /// Takes note of what the plan has brought: the rows, where they were to be
    /// read, and the access. Rows that cannot be read leave everything as it is.
    pub fn load_worktree(
        &mut self,
        root: &WorktreeRoot,
        now: i64,
        data_version: i64,
        rows: &Vec<LineCountRow>,
    ) -> (loaded: Result<(), StoreError>)
        requires
            plan_for(old(self)@, root@, now, data_version).must_reload ==> rows::times_fit(rows@),
        ensures
            match loaded {
                Ok(_) => {
                    &&& plan_for(old(self)@, root@, now, data_version).must_reload
                        ==> rows::first_error(rows@) is None
                    &&& final(self)@ == after_load(
                        old(self)@,
                        root@,
                        now,
                        data_version,
                        rows::kept_in_rows(rows@),
                    )
                },
                Err(error) => {
                    &&& plan_for(old(self)@, root@, now, data_version).must_reload
                    &&& rows::first_error(rows@) == Some(error)
                    &&& final(self)@ == old(self)@
                },
            },
    {
        let plan = self.load_plan(root, now, data_version);
        let ghost before = self@;
        if plan.must_reload {
            let entries = match read_rows(rows) {
                Ok(entries) => entries,
                Err(error) => {
                    return Err(error);
                },
            };
            self.worktrees.insert(
                root.clone(),
                LoadedWorktree { entries, last_accessed: now, data_version },
            );
        } else if plan.must_refresh_access {
            if let Some(worktree) = self.worktrees.remove(root) {
                self.worktrees.insert(
                    root.clone(),
                    LoadedWorktree { last_accessed: now, ..worktree },
                );
            }
        }
        assert(self@ =~= after_load(
            before,
            root@,
            now,
            data_version,
            rows::kept_in_rows(rows@),
        ));
        Ok(())
    }

    /// The kept counts of candidates that have not changed.
    pub fn lookup(&self, root: &WorktreeRoot, candidates: &[LineCountCandidate]) -> (found: Result<
        OrderedMap<RelPath, FileLineCount>,
        StoreError,
    >)
        ensures
            found is Ok <==> self@.contains_key(root@),
            match found {
                Ok(counts) => counts@ == hits(self@[root@].kept, candidates@),
                Err(error) => error == StoreError::NotLoaded,
            },
    {
        let worktree = match self.worktrees.get(root) {
            Some(worktree) => worktree,
            None => {
                return Err(StoreError::NotLoaded);
            },
        };
        let ghost kept = worktree@.kept;
        let mut counts: OrderedMap<RelPath, FileLineCount> = OrderedMap::new();
        assert(counts@ =~= hits(kept, candidates@.take(0)));
        for i in 0..candidates.len()
            invariant
                kept == worktree.entries@,
                counts@ == hits(kept, candidates@.take(i as int)),
        {
            let candidate = &candidates[i];
            if let Some(fingerprint) = candidate.fingerprint {
                if let Some(cached) = worktree.entries.get(&candidate.path) {
                    if cached.fingerprint == fingerprint {
                        counts.insert(candidate.path.clone(), cached.count);
                    }
                }
            }
            proof {
                lemma_hits_push(kept, candidates@, i as int);
            }
        }
        assert(candidates@.take(candidates@.len() as int) =~= candidates@);
        Ok(counts)
    }

    /// Remembers counts, once the transaction that puts them into the table has
    /// come to `outcome`. Either all of them are remembered, or the call fails
    /// and everything stays as it was. With no counts there is nothing to
    /// remember, and neither a transaction nor a loaded worktree is needed.
    pub fn store(
        &mut self,
        root: &WorktreeRoot,
        counts: &[Counted],
        outcome: TransactionOutcome,
    ) -> (stored: Result<(), StoreError>)
        ensures
            stored == result_with(store_error(old(self)@, root@, counts@, outcome)),
            final(self)@ == after_store(old(self)@, root@, counts@, outcome),
    {
        if counts.len() == 0 {
            return Ok(());
        }
        if !can_persist(counts) {
            return Err(StoreError::MtimeBeforeEpoch);
        }
        if outcome != TransactionOutcome::Committed {
            return Err(StoreError::NotCommitted);
        }
        let ghost before = self@;
        let mut worktree = match self.worktrees.remove(root) {
            Some(worktree) => worktree,
            None => {
                assert(self@ =~= before);
                return Err(StoreError::NotLoaded);
            },
        };
        let ghost kept = worktree.entries@;
        assert(counts@.take(0) =~= Seq::<Counted>::empty());
        let ghost start = worktree;
        for i in 0..counts.len()
            invariant
                worktree.last_accessed == start.last_accessed,
                worktree.data_version == start.data_version,
                worktree.entries@ == rows::remembered(kept, counts@.take(i as int)),
        {
            assert(counts@.take(i + 1).drop_last() =~= counts@.take(i as int));
            assert(counts@.take(i + 1).last() == counts@[i as int]);
            if let Some(fingerprint) = counts[i].0.fingerprint {
                worktree.entries.insert(
                    counts[i].0.path.clone(),
                    CachedLineCount { fingerprint, count: counts[i].1 },
                );
            }
        }
        assert(counts@.take(counts@.len() as int) =~= counts@);
        self.worktrees.insert(root.clone(), worktree);
        assert(self@ =~= with_kept(before, root@, rows::remembered(kept, counts@)));
        Ok(())
    }

    /// The paths whose counts are kept though they are not among `valid_paths`.
    /// Their rows are to be deleted.
    pub fn stale_paths(&self, root: &WorktreeRoot, valid_paths: &OrderedMap<RelPath, ()>) -> (paths:
        Result<Vec<RelPath>, StoreError>)
        ensures
            paths is Ok <==> self@.contains_key(root@),
            match paths {
                Ok(paths) => {
                    &&& rel_path::texts_of(paths@).no_duplicates()
                    &&& rel_path::texts_of(paths@).to_set() == stale(self@[root@].kept, valid_paths@.dom())
                },
                Err(error) => error == StoreError::NotLoaded,
            },
    {
        let worktree = match self.worktrees.get(root) {
            Some(worktree) => worktree,
            None => {
                return Err(StoreError::NotLoaded);
            },
        };
        let ghost kept = worktree.entries@;
        let ghost listing = worktree.entries.listing();
        let mut paths: Vec<RelPath> = Vec::new();
        let ghost mut origin: Seq<int> = Seq::empty();
        let len: usize = worktree.entries.len();
        proof {
            ordered_map::lemma_map_of::<RelPath, CachedLineCount>(listing);
        }
        for i in 0..len
            invariant
                listing == worktree.entries.listing(),
                len == listing.len(),
                origin.len() == paths@.len(),
                forall|a: int|
                    0 <= a < origin.len() ==> 0 <= #[trigger] origin[a] < i && paths@[a]@
                        == listing[origin[a]].0 && !valid_paths@.contains_key(paths@[a]@),
                forall|a: int, b: int|
                    0 <= a < b < origin.len() ==> #[trigger] origin[a] < #[trigger] origin[b],
                forall|k: int|
                    0 <= k < i && !valid_paths@.contains_key((#[trigger] listing[k]).0)
                        ==> origin.contains(k),
        {
            let path = worktree.entries.key_at(i);
            let ghost before = origin;
            if !valid_paths.contains_key(path) {
                paths.push(path.clone());
                proof {
                    origin = before.push(i as int);
                    assert(origin[before.len() as int] == i);
                    assert forall|k: int|
                        0 <= k < i + 1 && !valid_paths@.contains_key(
                            (#[trigger] listing[k]).0,
                        ) implies origin.contains(k) by {
                        if k < i {
                            let a = choose|a: int| 0 <= a < before.len() && before[a] == k;
                            assert(origin[a] == k);
                        }
                    }
                }
            }
        }
        proof {
            let found = rel_path::texts_of(paths@);
            assert forall|a: int, b: int|
                0 <= a < found.len() && 0 <= b < found.len() && a != b implies found[a]
                != found[b] by {
                assert(found[a] == listing[origin[a]].0 && found[b] == listing[origin[b]].0);
                if a < b {
                    assert(origin[a] < origin[b]);
                } else {
                    assert(origin[b] < origin[a]);
                }
            }
            assert forall|path: Seq<char>| found.contains(path) == stale(
                kept,
                valid_paths@.dom(),
            ).contains(path) by {
                if found.contains(path) {
                    let a = choose|a: int| 0 <= a < found.len() && found[a] == path;
                    assert(listing[origin[a]].0 == path);
                }
                if stale(kept, valid_paths@.dom()).contains(path) {
                    assert(kept.contains_key(path));
                    let k = choose|k: int|
                        0 <= k < listing.len() && (#[trigger] listing[k]).0 == path;
                    assert(origin.contains(k));
                    let a = choose|a: int| 0 <= a < origin.len() && origin[a] == k;
                    assert(found[a] == path);
                }
            }
            assert(found.to_set() =~= stale(kept, valid_paths@.dom()));
        }
        Ok(paths)
    }

    /// Forgets the counts at stale paths, once the transaction that deletes their
    /// rows has come to `outcome`. Either all of them are forgotten, or the call
    /// fails and everything stays as it was. Without stale paths no transaction
    /// is needed.
    pub fn reconcile(
        &mut self,
        root: &WorktreeRoot,
        stale_paths: &[RelPath],
        outcome: TransactionOutcome,
    ) -> (reconciled: Result<(), StoreError>)
        ensures
            reconciled == result_with(
                reconcile_error(old(self)@, root@, rel_path::texts_of(stale_paths@), outcome),
            ),
            final(self)@ == after_reconcile(
                old(self)@,
                root@,
                rel_path::texts_of(stale_paths@),
                outcome,
            ),
    {
        let ghost before = self@;
        if self.worktrees.contains_key(root) && stale_paths.len() > 0 && outcome
            != TransactionOutcome::Committed {
            return Err(StoreError::NotCommitted);
        }
        let mut worktree = match self.worktrees.remove(root) {
            Some(worktree) => worktree,
            None => {
                assert(self@ =~= before);
                return Err(StoreError::NotLoaded);
            },
        };
        let ghost start = worktree;
        let ghost kept = worktree.entries@;
        let ghost gone = rel_path::texts_of(stale_paths@);
        assert(kept =~= kept.remove_keys(gone.take(0).to_set()));
        for i in 0..stale_paths.len()
            invariant
                gone == rel_path::texts_of(stale_paths@),
                worktree.last_accessed == start.last_accessed,
                worktree.data_version == start.data_version,
                worktree.entries@ == kept.remove_keys(gone.take(i as int).to_set()),
        {
            worktree.entries.remove(&stale_paths[i]);
            proof {
                let taken = gone.take(i as int);
                let more = gone.take(i + 1);
                let path = stale_paths@[i as int]@;
                assert(more =~= taken.push(path));
                assert forall|p: Seq<char>| more.contains(p) == (taken.contains(p) || p
                    == path) by {
                    if taken.contains(p) {
                        let a = choose|a: int| 0 <= a < taken.len() && taken[a] == p;
                        assert(more[a] == p);
                    }
                    if p == path {
                        assert(more[i as int] == p);
                    }
                }
                assert(worktree.entries@ =~= kept.remove_keys(more.to_set()));
            }
        }
        assert(gone.take(gone.len() as int) =~= gone);
        self.worktrees.insert(root.clone(), worktree);
        assert(self@ =~= with_kept(before, root@, kept.remove_keys(gone.to_set())));
        Ok(())
    }
}

/// One more candidate.
proof fn lemma_hits_push(kept: Kept, candidates: Seq<LineCountCandidate>, i: int)
    requires
        0 <= i < candidates.len(),
    ensures
        hits(kept, candidates.take(i + 1)) == (if is_hit(kept, candidates[i]) {
            hits(kept, candidates.take(i)).insert(
                candidates[i].path@,
                kept[candidates[i].path@].count,
            )
        } else {
            hits(kept, candidates.take(i))
        }),
{
    let before = candidates.take(i);
    let after = candidates.take(i + 1);
    assert(after[i] == candidates[i]);
    assert forall|path: Seq<char>| #[trigger] has_hit(kept, after, path) == (has_hit(
        kept,
        before,
        path,
    ) || (candidates[i].path@ == path && is_hit(kept, candidates[i]))) by {
        if has_hit(kept, after, path) {
            let k = choose|k: int|
                0 <= k < after.len() && (#[trigger] after[k]).path@ == path && is_hit(
                    kept,
                    after[k],
                );
            if k < i {
                assert(before[k] == after[k]);
            }
        }
        if has_hit(kept, before, path) {
            let k = choose|k: int|
                0 <= k < before.len() && (#[trigger] before[k]).path@ == path && is_hit(
                    kept,
                    before[k],
                );
            assert(after[k] == before[k]);
        }
    }
    assert(hits(kept, after) =~= (if is_hit(kept, candidates[i]) {
        hits(kept, before).insert(candidates[i].path@, kept[candidates[i].path@].count)
    } else {
        hits(kept, before)
    }));
}

} // verus!
