//! What holds of counts that are kept from one session to the next.

use crate::candidate::LineCountCandidate;
use crate::counting;
use crate::counting::CountedCandidate;
use crate::counts::{FileLineCount, ProjectLineCount};
use crate::rows;
use crate::rows::{CachedLineCount, Counted, Kept, Table};
use crate::store;
use crate::store::LoadedWorktrees;
use crate::transaction;
use crate::transaction::{StepResult, TransactionOutcome};
use vstd::prelude::*;

verus! {

/// Of the counts at its path the one at `i` is the last that can be kept.
pub open spec fn is_last_at_its_path(counts: Seq<Counted>, i: int) -> bool {
    &&& 0 <= i < counts.len()
    &&& counts[i].0.fingerprint is Some
    &&& forall|j: int|
        i < j < counts.len() && (#[trigger] counts[j]).0.path@ == counts[i].0.path@
            ==> counts[j].0.fingerprint is None
}

/// A count that has been kept is found for a file in the state in which it was
/// counted.
pub proof fn law_kept_counts_are_found(
    kept: Kept,
    counts: Seq<Counted>,
    i: int,
    candidates: Seq<LineCountCandidate>,
    k: int,
)
    requires
        is_last_at_its_path(counts, i),
        0 <= k < candidates.len(),
        candidates[k].path@ == counts[i].0.path@,
        candidates[k].fingerprint == counts[i].0.fingerprint,
    ensures
        store::hits(rows::remembered(kept, counts), candidates).contains_key(candidates[k].path@),
        store::hits(rows::remembered(kept, counts), candidates)[candidates[k].path@]
            == counts[i].1,
{
    lemma_remembered_last(kept, counts, i);
    assert(store::is_hit(rows::remembered(kept, counts), candidates[k]));
    assert(store::has_hit(rows::remembered(kept, counts), candidates, candidates[k].path@));
}

proof fn lemma_remembered_last(kept: Kept, counts: Seq<Counted>, i: int)
    requires
        is_last_at_its_path(counts, i),
    ensures
        rows::remembered(kept, counts).contains_key(counts[i].0.path@),
        rows::remembered(kept, counts)[counts[i].0.path@] == (CachedLineCount {
            fingerprint: counts[i].0.fingerprint->0,
            count: counts[i].1,
        }),
    decreases counts.len(),
{
    let last = counts.len() - 1;
    if i < last {
        let front = counts.drop_last();
        assert(front[i] == counts[i]);
        assert forall|j: int|
            i < j < front.len() && (#[trigger] front[j]).0.path@
                == front[i].0.path@ implies front[j].0.fingerprint is None by {
            assert(counts[j] == front[j]);
        }
        lemma_remembered_last(kept, front, i);
        assert(counts.last() == counts[last]);
    }
}

/// Counts at other paths stay as they are when more are kept.
pub proof fn law_other_counts_stay(kept: Kept, counts: Seq<Counted>, path: Seq<char>)
    requires
        forall|i: int| 0 <= i < counts.len() ==> (#[trigger] counts[i]).0.path@ != path,
    ensures
        rows::remembered(kept, counts).contains_key(path) == kept.contains_key(path),
        rows::remembered(kept, counts)[path] == kept[path],
    decreases counts.len(),
{
    if counts.len() > 0 {
        let front = counts.drop_last();
        assert forall|i: int| 0 <= i < front.len() implies (#[trigger] front[i]).0.path@
            != path by {
            assert(counts[i] == front[i]);
        }
        law_other_counts_stay(kept, front, path);
        assert(counts.last() == counts[counts.len() - 1]);
    }
}

/// A file that has changed since it was counted has no kept count, nor has one
/// whose state is not known.
pub proof fn law_changed_files_have_no_kept_count(
    kept: Kept,
    candidates: Seq<LineCountCandidate>,
    path: Seq<char>,
)
    requires
        forall|i: int|
            0 <= i < candidates.len() && (#[trigger] candidates[i]).path@ == path
                ==> candidates[i].fingerprint is None || !kept.contains_key(path)
                || candidates[i].fingerprint != Some(kept[path].fingerprint),
    ensures
        !store::hits(kept, candidates).contains_key(path),
{
}

/// After stale counts have been removed, those that are left are the ones at
/// valid paths, just as they were, and none is stale any more.
pub proof fn law_only_valid_counts_are_left(kept: Kept, valid: Set<Seq<char>>)
    ensures
        ({
            let left = kept.remove_keys(store::stale(kept, valid));
            &&& left.dom() == kept.dom().intersect(valid)
            &&& forall|path: Seq<char>| #[trigger] left.contains_key(path) ==> left[path]
                == kept[path]
            &&& store::stale(left, valid) == Set::<Seq<char>>::empty()
            &&& forall|candidates: Seq<LineCountCandidate>, path: Seq<char>| #[trigger]
                store::hits(left, candidates).contains_key(path) ==> valid.contains(path)
        }),
{
    let left = kept.remove_keys(store::stale(kept, valid));
    assert(left.dom() =~= kept.dom().intersect(valid));
    assert(store::stale(left, valid) =~= Set::<Seq<char>>::empty());
    assert forall|candidates: Seq<LineCountCandidate>, path: Seq<char>| #[trigger]
        store::hits(left, candidates).contains_key(path) implies valid.contains(path) by {
        assert(store::has_hit(left, candidates, path));
        assert(left.contains_key(path));
    }
}

/// Once a worktree has been loaded, it need not be loaded again as long as no
/// time passes and the database does not change; and loading it leaves the other
/// worktrees alone.
pub proof fn law_loading_once_is_enough(
    loaded: LoadedWorktrees,
    root: Seq<u8>,
    now: i64,
    data_version: i64,
    read: Kept,
)
    ensures
        ({
            let after = store::after_load(loaded, root, now, data_version, read);
            &&& after.contains_key(root)
            &&& after[root].data_version == data_version
            &&& !store::plan_for(after, root, now, data_version).must_reload
            &&& !store::plan_for(after, root, now, data_version).must_refresh_access
            &&& forall|other: Seq<u8>|
                other != root ==> #[trigger] after.contains_key(other) == loaded.contains_key(
                    other,
                ) && after[other] == loaded[other]
        }),
{
}

/// A worktree is forgotten once it has not been accessed for more than the time
/// of retention, and not before, whatever the clock shows.
pub proof fn law_worktrees_are_retained(now: i64, last_accessed: i64)
    ensures
        last_accessed < store::clamped(now - store::CACHE_RETENTION_SECONDS) <==> now
            - last_accessed > store::CACHE_RETENTION_SECONDS,
{
}

/// Rows are read again exactly when there is nothing in memory or something
/// else has written to the database.
pub proof fn law_rows_are_read_when_need_be(
    loaded: LoadedWorktrees,
    root: Seq<u8>,
    now: i64,
    data_version: i64,
    read: Kept,
)
    ensures
        store::after_load(loaded, root, now, data_version, read)[root].kept == (
        if loaded.contains_key(root) && loaded[root].data_version == data_version {
            loaded[root].kept
        } else {
            read
        }),
{
}

/// A candidate that was seen in a state that can be told from others has been
/// counted.
pub open spec fn is_cacheable(one: CountedCandidate) -> bool {
    one.count is Some && one.fingerprint is Some && one.candidate.fingerprint is Some
}

/// Some count that is worth keeping comes from the candidate at `i`.
proof fn lemma_cacheable_comes_along(counted: Seq<CountedCandidate>, i: int)
    requires
        0 <= i < counted.len(),
        is_cacheable(counted[i]),
        forall|j: int|
            i < j < counted.len() && is_cacheable(#[trigger] counted[j])
                ==> counted[j].candidate.path@ != counted[i].candidate.path@,
    ensures
        exists|k: int| #[trigger]
            is_last_at_its_path(counting::cacheable_among(counted), k)
                && counting::cacheable_among(counted)[k].0.path@ == counted[i].candidate.path@
                && counting::cacheable_among(counted)[k].0.fingerprint == counted[i].fingerprint
                && Some(counting::cacheable_among(counted)[k].1) == counted[i].count,
    decreases counted.len(),
{
    let last = counted.len() - 1;
    let front = counted.drop_last();
    let before = counting::cacheable_among(front);
    let all = counting::cacheable_among(counted);
    assert(counted.last() == counted[last]);
    if i == last {
        let k = before.len() as int;
        assert(all.len() == k + 1);
        assert(is_last_at_its_path(all, k));
    } else {
        assert(front[i] == counted[i]);
        assert forall|j: int|
            i < j < front.len() && is_cacheable(
                #[trigger] front[j],
            ) implies front[j].candidate.path@ != front[i].candidate.path@ by {
            assert(counted[j] == front[j]);
        }
        lemma_cacheable_comes_along(front, i);
        let k = choose|k: int| #[trigger]
            is_last_at_its_path(before, k) && before[k].0.path@ == counted[i].candidate.path@
                && before[k].0.fingerprint == counted[i].fingerprint && Some(before[k].1)
                == counted[i].count;
        assert(all[k] == before[k]);
        assert forall|j: int|
            k < j < all.len() && (#[trigger] all[j]).0.path@
                == all[k].0.path@ implies all[j].0.fingerprint is None by {
            if j < before.len() {
                assert(all[j] == before[j]);
            } else {
                assert(is_cacheable(counted[last]));
                assert(all[j].0.path@ == counted[last].candidate.path@);
            }
        }
        assert(is_last_at_its_path(all, k));
    }
}

/// A file that has been counted in the state in which it was seen need not be
/// counted again as long as it stays in that state: its count is found.
pub proof fn law_counted_files_need_not_be_counted_again(
    kept: Kept,
    counted: Seq<CountedCandidate>,
    i: int,
    candidates: Seq<LineCountCandidate>,
    k: int,
)
    requires
        0 <= i < counted.len(),
        is_cacheable(counted[i]),
        forall|j: int|
            i < j < counted.len() && is_cacheable(#[trigger] counted[j])
                ==> counted[j].candidate.path@ != counted[i].candidate.path@,
        0 <= k < candidates.len(),
        candidates[k].path@ == counted[i].candidate.path@,
        candidates[k].fingerprint == counted[i].fingerprint,
    ensures
        ({
            let found = store::hits(
                rows::remembered(kept, counting::cacheable_among(counted)),
                candidates,
            );
            &&& found.contains_key(candidates[k].path@)
            &&& Some(found[candidates[k].path@]) == counted[i].count
            &&& !counting::misses_among(candidates, found).contains(candidates[k])
        }),
{
    let all = counting::cacheable_among(counted);
    lemma_cacheable_comes_along(counted, i);
    let at = choose|at: int| #[trigger]
        is_last_at_its_path(all, at) && all[at].0.path@ == counted[i].candidate.path@
            && all[at].0.fingerprint == counted[i].fingerprint && Some(all[at].1)
            == counted[i].count;
    law_kept_counts_are_found(kept, all, at, candidates, k);
    let found = store::hits(rows::remembered(kept, all), candidates);
    let missing = |candidate: LineCountCandidate| !found.contains_key(candidate.path@);
    let misses = candidates.filter(missing);
    if misses.contains(candidates[k]) {
        let m = choose|m: int| 0 <= m < misses.len() && misses[m] == candidates[k];
        candidates.lemma_filter_pred(missing, m);
        assert(missing(misses[m]));
    }
}

/// A count is only taken from what is kept where the file is in the state for
/// which it is kept.
pub proof fn law_found_counts_are_of_the_state_seen(
    kept: Kept,
    candidates: Seq<LineCountCandidate>,
    path: Seq<char>,
)
    requires
        store::hits(kept, candidates).contains_key(path),
    ensures
        store::hits(kept, candidates)[path] == kept[path].count,
        exists|i: int|
            0 <= i < candidates.len() && (#[trigger] candidates[i]).path@ == path
                && candidates[i].fingerprint == Some(kept[path].fingerprint),
{
    assert(store::has_hit(kept, candidates, path));
}

/// `after` can be what is read of a worktree's rows after a transaction that was
/// to turn `table` into `written`: that, once it is committed, and `table` itself
/// where it was not begun or has been rolled back. Of a transaction that is still
/// open nothing is said.
pub open spec fn can_be_read_after(
    table: Table,
    written: Table,
    results: Seq<StepResult>,
    outcome: TransactionOutcome,
    after: Table,
) -> bool {
    &&& outcome is Committed ==> after == written
    &&& outcome is NotBegun || transaction::is_rolled_back(results) ==> after == table
}

/// What a lookup finds, whether or not the rows have to be read for it.
pub open spec fn found(
    loaded: LoadedWorktrees,
    table: Table,
    root: Seq<u8>,
    now: i64,
    data_version: i64,
    candidates: Seq<LineCountCandidate>,
) -> Map<Seq<char>, FileLineCount> {
    store::hits(
        store::after_load(loaded, root, now, data_version, rows::kept_in_table(table))[root].kept,
        candidates,
    )
}

/// The steps of a transaction have come to `outcome`, and its operation has
/// failed if the times of the counts that it was to write cannot be persisted.
pub open spec fn is_outcome_of_storing(
    counts: Seq<Counted>,
    results: Seq<StepResult>,
    outcome: TransactionOutcome,
) -> bool {
    &&& transaction::ends_with(results, outcome)
    &&& results.len() > 1 && !rows::times_persist(counts) ==> results[1] != StepResult::Succeeded
}

/// A transaction is only committed where every time can be persisted.
proof fn lemma_committed_counts_persist(
    counts: Seq<Counted>,
    results: Seq<StepResult>,
    outcome: TransactionOutcome,
)
    requires
        is_outcome_of_storing(counts, results, outcome),
    ensures
        outcome is Committed ==> rows::times_persist(counts),
{
    if results.len() >= 3 {
        transaction::law_committed_when_all_succeed(results);
    } else {
        reveal_with_fuel(transaction::step_after_all, 3);
    }
}

/// Counts are stored all together or not at all. Where one of them has a time
/// that cannot be persisted, or the transaction is not committed for any other
/// reason, storing fails, and nothing in memory changes, also of the counts ahead
/// of the failing one. As long as the transaction is not left open, no row
/// changes either, and every lookup finds what it found before; where the rows
/// need not be read again, it does so in any case.
pub proof fn law_failing_store_changes_nothing(
    loaded: LoadedWorktrees,
    table: Table,
    root: Seq<u8>,
    counts: Seq<Counted>,
    results: Seq<StepResult>,
    outcome: TransactionOutcome,
    after: Table,
    now: i64,
    data_version: i64,
    candidates: Seq<LineCountCandidate>,
)
    requires
        counts.len() > 0,
        is_outcome_of_storing(counts, results, outcome),
        !rows::times_persist(counts) || outcome !is Committed,
        can_be_read_after(
            table,
            rows::upserted(table, rows::rows_of(counts)),
            results,
            outcome,
            after,
        ),
    ensures
        store::store_error(loaded, root, counts, outcome) is Some,
        store::after_store(loaded, root, counts, outcome) == loaded,
        transaction::is_closed(results, outcome) ==> after == table,
        transaction::is_closed(results, outcome) || !store::plan_for(
            loaded,
            root,
            now,
            data_version,
        ).must_reload ==> found(
            store::after_store(loaded, root, counts, outcome),
            after,
            root,
            now,
            data_version,
            candidates,
        ) == found(loaded, table, root, now, data_version, candidates),
{
    lemma_committed_counts_persist(counts, results, outcome);
}

/// Where storing succeeds, every count that is the last at its path is found
/// afterwards, whether or not the rows have to be read for it.
pub proof fn law_stored_counts_are_found(
    loaded: LoadedWorktrees,
    table: Table,
    root: Seq<u8>,
    counts: Seq<Counted>,
    results: Seq<StepResult>,
    outcome: TransactionOutcome,
    after: Table,
    now: i64,
    data_version: i64,
    i: int,
    candidates: Seq<LineCountCandidate>,
    k: int,
)
    requires
        rows::times_normal(counts),
        store::store_error(loaded, root, counts, outcome) is None,
        can_be_read_after(
            table,
            rows::upserted(table, rows::rows_of(counts)),
            results,
            outcome,
            after,
        ),
        is_last_at_its_path(counts, i),
        0 <= k < candidates.len(),
        candidates[k].path@ == counts[i].0.path@,
        candidates[k].fingerprint == counts[i].0.fingerprint,
    ensures
        ({
            let found = found(
                store::after_store(loaded, root, counts, outcome),
                after,
                root,
                now,
                data_version,
                candidates,
            );
            &&& found.contains_key(candidates[k].path@)
            &&& found[candidates[k].path@] == counts[i].1
        }),
{
    rows::law_stored_counts_are_read_back(table, counts);
    law_kept_counts_are_found(loaded[root].kept, counts, i, candidates, k);
    law_kept_counts_are_found(rows::kept_in_table(table), counts, i, candidates, k);
}

/// What is in memory of a worktree agrees with its rows, and goes on to do so
/// whatever becomes of storing, as long as the transaction is not left open.
pub proof fn law_storing_keeps_memory_and_table_together(
    loaded: LoadedWorktrees,
    table: Table,
    root: Seq<u8>,
    counts: Seq<Counted>,
    results: Seq<StepResult>,
    outcome: TransactionOutcome,
    after: Table,
)
    requires
        loaded.contains_key(root),
        loaded[root].kept == rows::kept_in_table(table),
        rows::times_normal(counts),
        is_outcome_of_storing(counts, results, outcome),
        transaction::is_closed(results, outcome),
        can_be_read_after(
            table,
            rows::upserted(table, rows::rows_of(counts)),
            results,
            outcome,
            after,
        ),
    ensures
        store::after_store(loaded, root, counts, outcome)[root].kept == rows::kept_in_table(after),
{
    lemma_committed_counts_persist(counts, results, outcome);
    transaction::law_when_transactions_stay_open(results, outcome);
    if outcome is Committed {
        rows::law_stored_counts_are_read_back(table, counts);
    }
}

/// Stale counts are forgotten all together or not at all: where the transaction
/// that was to delete their rows is not committed, reconciling fails and nothing
/// in memory changes, nor, as long as the transaction is not left open, any row.
/// Memory and rows that agree then go on to do so.
pub proof fn law_failing_reconcile_changes_nothing(
    loaded: LoadedWorktrees,
    table: Table,
    root: Seq<u8>,
    stale_paths: Seq<Seq<char>>,
    results: Seq<StepResult>,
    outcome: TransactionOutcome,
    after: Table,
)
    requires
        stale_paths.len() > 0,
        transaction::ends_with(results, outcome),
        can_be_read_after(
            table,
            table.remove_keys(stale_paths.to_set()),
            results,
            outcome,
            after,
        ),
    ensures
        outcome !is Committed ==> {
            &&& store::reconcile_error(loaded, root, stale_paths, outcome) is Some
            &&& store::after_reconcile(loaded, root, stale_paths, outcome) == loaded
            &&& transaction::is_closed(results, outcome) ==> after == table
        },
        transaction::is_closed(results, outcome) && loaded.contains_key(root)
            && loaded[root].kept == rows::kept_in_table(table) ==> store::after_reconcile(
            loaded,
            root,
            stale_paths,
            outcome,
        )[root].kept == rows::kept_in_table(after),
{
    transaction::law_when_transactions_stay_open(results, outcome);
    rows::law_deleted_rows_are_forgotten(table, stale_paths.to_set());
}

/// Mapping keeps the multiset.
proof fn lemma_map_keeps_multiset<A, B>(a: Seq<A>, b: Seq<A>, f: spec_fn(A) -> B)
    requires
        a.to_multiset() == b.to_multiset(),
    ensures
        a.map_values(f).to_multiset() == b.map_values(f).to_multiset(),
    decreases a.len(),
{
    broadcast use vstd::seq_lib::group_to_multiset_ensures;

    assert(a.to_multiset().len() == a.len() && b.to_multiset().len() == b.len());
    if a.len() > 0 {
        let last = a.last();
        let front = a.drop_last();
        assert(a.contains(a[a.len() - 1]));
        assert(b.to_multiset().count(last) > 0);
        let at = choose|at: int| 0 <= at < b.len() && b[at] == last;
        let others = b.remove(at);
        assert(a =~= front.push(last));
        assert(front.to_multiset() =~= others.to_multiset()) by {
            assert(front =~= a.remove(a.len() - 1));
        }
        lemma_map_keeps_multiset(front, others, f);
        assert(a.map_values(f) =~= front.map_values(f).push(f(last)));
        assert(b.map_values(f).remove(at) =~= others.map_values(f));
        assert(b.map_values(f)[at] == f(last));
        assert(b.map_values(f).contains(f(last)));
        assert(b.map_values(f).to_multiset() =~= others.map_values(f).to_multiset().insert(
            f(last),
        ));
    } else {
        assert(a =~= b);
    }
}

/// A store that cannot be opened, or whose lookup fails, answers like one that
/// works and is empty: all candidates are to be counted, and where the file
/// system shows the same, the results are the same, in whatever order the
/// candidates come to be counted.
pub proof fn law_failing_store_answers_like_an_empty_one(
    candidates: Seq<LineCountCandidate>,
    look: spec_fn(LineCountCandidate) -> CountedCandidate,
    counted: Seq<CountedCandidate>,
    counted_with_empty: Seq<CountedCandidate>,
)
    requires
        counted.to_multiset() == counting::misses_among(
            candidates,
            counting::counts_to_use(None),
        ).map_values(look).to_multiset(),
        counted_with_empty.to_multiset() == counting::misses_among(
            candidates,
            counting::counts_to_use(Some(store::hits(Map::empty(), candidates))),
        ).map_values(look).to_multiset(),
    ensures
        counting::counts_to_use(None) == counting::counts_to_use(
            Some(store::hits(Map::empty(), candidates)),
        ),
        counting::misses_among(candidates, counting::counts_to_use(None)) == candidates,
        counting::kept_results(candidates, counting::counts_to_use(None)).len() == 0,
        counting::all_results(
            candidates,
            counting::counts_to_use(None),
            counted,
        ).to_multiset() == counting::all_results(
            candidates,
            counting::counts_to_use(Some(store::hits(Map::empty(), candidates))),
            counted_with_empty,
        ).to_multiset(),
        counting::all_results(
            candidates,
            counting::counts_to_use(None),
            counted,
        ).to_multiset() == candidates.map_values(
            |candidate: LineCountCandidate| counting::counted_result(look(candidate)),
        ).to_multiset(),
{
    let none = counting::counts_to_use(None);
    let report = |one: CountedCandidate| counting::counted_result(one);
    assert(store::hits(Map::empty(), candidates) =~= none);
    lemma_nothing_is_kept(candidates, none);
    lemma_map_keeps_multiset(counted, candidates.map_values(look), report);
    lemma_map_keeps_multiset(counted_with_empty, candidates.map_values(look), report);
    assert(counting::all_results(candidates, none, counted) =~= counted.map_values(report));
    assert(counting::all_results(candidates, none, counted_with_empty)
        =~= counted_with_empty.map_values(report));
    assert(candidates.map_values(look).map_values(report) =~= candidates.map_values(
        |candidate: LineCountCandidate| counting::counted_result(look(candidate)),
    ));
}

/// Without any counts to go by, all candidates are to be counted.
proof fn lemma_nothing_is_kept(
    candidates: Seq<LineCountCandidate>,
    none: Map<Seq<char>, FileLineCount>,
)
    requires
        none == Map::<Seq<char>, FileLineCount>::empty(),
    ensures
        counting::misses_among(candidates, none) == candidates,
        counting::kept_results(candidates, none) == Seq::<ProjectLineCount>::empty(),
    decreases candidates.len(),
{
    reveal(Seq::filter);
    if candidates.len() > 0 {
        lemma_nothing_is_kept(candidates.drop_last(), none);
        assert(candidates.drop_last().push(candidates.last()) =~= candidates);
    } else {
        assert(counting::misses_among(candidates, none) =~= candidates);
    }
}

} // verus!
